//! The reconciler's record of nodes, instances and rollouts, kept in memory.
//!
//! Instance records keep the order in which they were written: replacing a record
//! removes the old one and appends the new one, as the on-disk table does.

use vstd::prelude::*;
use crate::spec::{Instance, InstanceView, NodeInfo, NodeView, Rollout, RolloutView};
use crate::text::{str_eq, sviews};

verus! {

broadcast use vstd::seq_lib::group_seq_properties;

/// The whole record as plain text and numbers.
pub struct DbView {
    pub instances: Seq<InstanceView>,
    pub nodes: Seq<NodeView>,
    pub rollouts: Seq<RolloutView>,
}

/// Views of a sequence of instances.
pub open spec fn iviews(v: Seq<Instance>) -> Seq<InstanceView> {
    v.map_values(|x: Instance| x@)
}

/// Views of a sequence of nodes.
pub open spec fn nviews(v: Seq<NodeInfo>) -> Seq<NodeView> {
    v.map_values(|x: NodeInfo| x@)
}

/// Views of a sequence of rollouts.
pub open spec fn rviews(v: Seq<Rollout>) -> Seq<RolloutView> {
    v.map_values(|x: Rollout| x@)
}

// ----- keys and predicates -----

/// The instance is not called `id`.
pub open spec fn instance_id_is_not(id: Seq<char>) -> spec_fn(InstanceView) -> bool {
    |x: InstanceView| x.id != id
}

/// The instance belongs to spec `name`.
pub open spec fn instance_of_spec(name: Seq<char>) -> spec_fn(InstanceView) -> bool {
    |x: InstanceView| x.spec_name == name
}

/// The instance is on `node` and not being deleted.
pub open spec fn active_on_node(node: Seq<char>) -> spec_fn(InstanceView) -> bool {
    |x: InstanceView| x.node == node && x.status != "deleting"@
}

/// The node is up.
pub open spec fn node_is_up() -> spec_fn(NodeView) -> bool {
    |n: NodeView| n.status == "up"@
}

/// The name of a node record.
pub open spec fn node_name() -> spec_fn(NodeView) -> Seq<char> {
    |n: NodeView| n.name
}

/// The rollout is not for spec `name`.
pub open spec fn rollout_is_not(name: Seq<char>) -> spec_fn(RolloutView) -> bool {
    |r: RolloutView| r.spec_name != name
}

/// No two instances share an id.
pub open spec fn unique_instance_ids(s: Seq<InstanceView>) -> bool {
    forall|i: int, j: int| 0 <= i < j < s.len() ==> s[i].id != s[j].id
}

/// No two nodes share a name.
pub open spec fn unique_node_names(s: Seq<NodeView>) -> bool {
    forall|i: int, j: int| 0 <= i < j < s.len() ==> s[i].name != s[j].name
}

/// No two rollouts are for the same spec.
pub open spec fn unique_rollout_names(s: Seq<RolloutView>) -> bool {
    forall|i: int, j: int| 0 <= i < j < s.len() ==> s[i].spec_name != s[j].spec_name
}

impl DbView {
    /// Instances, nodes and rollouts are each keyed uniquely.
    pub open spec fn wf(self) -> bool {
        &&& unique_instance_ids(self.instances)
        &&& unique_node_names(self.nodes)
        &&& unique_rollout_names(self.rollouts)
    }
}

// ----- node operations -----

/// Whether a node of that name is recorded.
pub open spec fn has_node(nodes: Seq<NodeView>, name: Seq<char>) -> bool {
    exists|i: int| 0 <= i < nodes.len() && nodes[i].name == name
}

/// Records `name` as up unless it is already recorded.
pub open spec fn register_one(nodes: Seq<NodeView>, name: Seq<char>) -> Seq<NodeView> {
    if has_node(nodes, name) {
        nodes
    } else {
        nodes.push(NodeView { name, status: "up"@ })
    }
}

/// Records each name in turn, as `register_one` does.
pub open spec fn register_all(nodes: Seq<NodeView>, names: Seq<Seq<char>>) -> Seq<NodeView>
    decreases names.len(),
{
    if names.len() == 0 {
        nodes
    } else {
        register_one(register_all(nodes, names.drop_last()), names.last())
    }
}

/// The node records with the status of `name` set to `status`.
pub open spec fn set_node_status(nodes: Seq<NodeView>, name: Seq<char>, status: Seq<char>) -> Seq<NodeView> {
    nodes.map_values(|n: NodeView| if n.name == name { NodeView { name: n.name, status } } else { n })
}

/// The recorded status of node `name`.
pub open spec fn node_status_of(nodes: Seq<NodeView>, name: Seq<char>) -> Option<Seq<char>>
    decreases nodes.len(),
{
    if nodes.len() == 0 {
        None
    } else if nodes.last().name == name {
        Some(nodes.last().status)
    } else {
        node_status_of(nodes.drop_last(), name)
    }
}

/// Names of the nodes that are up, in record order.
pub open spec fn up_node_names(nodes: Seq<NodeView>) -> Seq<Seq<char>> {
    nodes.filter(node_is_up()).map_values(node_name())
}

// ----- instance operations -----

/// The instances without the one called `id`.
pub open spec fn without_instance(s: Seq<InstanceView>, id: Seq<char>) -> Seq<InstanceView> {
    s.filter(instance_id_is_not(id))
}

/// The instances after writing `inst`: any record with its id is replaced, and it goes last.
pub open spec fn put_instance(s: Seq<InstanceView>, inst: InstanceView) -> Seq<InstanceView> {
    without_instance(s, inst.id).push(inst)
}

/// The instances with the status of `id` set to `status`.
pub open spec fn set_instance_status(s: Seq<InstanceView>, id: Seq<char>, status: Seq<char>) -> Seq<InstanceView> {
    s.map_values(
        |x: InstanceView|
            if x.id == id {
                InstanceView { status, ..x }
            } else {
                x
            },
    )
}

/// The instances with the spec hash of `id` set to `hash`.
pub open spec fn set_instance_hash(s: Seq<InstanceView>, id: Seq<char>, hash: Seq<char>) -> Seq<InstanceView> {
    s.map_values(
        |x: InstanceView|
            if x.id == id {
                InstanceView { spec_hash: hash, ..x }
            } else {
                x
            },
    )
}

/// The instances of spec `name`, in record order.
pub open spec fn instances_of(s: Seq<InstanceView>, name: Seq<char>) -> Seq<InstanceView> {
    s.filter(instance_of_spec(name))
}

/// How many instances on `node` are not being deleted.
pub open spec fn active_count(s: Seq<InstanceView>, node: Seq<char>) -> nat {
    s.filter(active_on_node(node)).len()
}

// ----- rollout operations -----

/// The rollout recorded for spec `name`.
pub open spec fn rollout_of(rs: Seq<RolloutView>, name: Seq<char>) -> Option<RolloutView>
    decreases rs.len(),
{
    if rs.len() == 0 {
        None
    } else if rs.last().spec_name == name {
        Some(rs.last())
    } else {
        rollout_of(rs.drop_last(), name)
    }
}

/// The rollouts without the one for `name`.
pub open spec fn without_rollout(rs: Seq<RolloutView>, name: Seq<char>) -> Seq<RolloutView> {
    rs.filter(rollout_is_not(name))
}

/// The rollouts after writing `r`, replacing any for the same spec.
pub open spec fn put_rollout(rs: Seq<RolloutView>, r: RolloutView) -> Seq<RolloutView> {
    without_rollout(rs, r.spec_name).push(r)
}

/// The rollouts with the phase of `name` set to `phase`.
pub open spec fn set_rollout_phase(rs: Seq<RolloutView>, name: Seq<char>, phase: Seq<char>) -> Seq<RolloutView> {
    rs.map_values(|r: RolloutView| if r.spec_name == name { RolloutView { phase, ..r } } else { r })
}

/// The rollouts with the created count of `name` one higher.
pub open spec fn bump_rollout_count(rs: Seq<RolloutView>, name: Seq<char>) -> Seq<RolloutView> {
    rs.map_values(
        |r: RolloutView|
            if r.spec_name == name {
                RolloutView { created_count: (r.created_count + 1) as u32, ..r }
            } else {
                r
            },
    )
}

// ----- lemmas -----

/// Filtering keeps elements in order, so distinct keys stay distinct.
pub proof fn lemma_filter_keeps_distinct_keys<A, K>(s: Seq<A>, p: spec_fn(A) -> bool, key: spec_fn(A) -> K)
    requires
        forall|i: int, j: int| 0 <= i < j < s.len() ==> key(s[i]) != key(s[j]),
    ensures
        forall|i: int, j: int|
            0 <= i < j < s.filter(p).len() ==> key(s.filter(p)[i]) != key(s.filter(p)[j]),
    decreases s.len(),
{
    reveal(Seq::filter);
    if s.len() > 0 {
        let d = s.drop_last();
        lemma_filter_keeps_distinct_keys(d, p, key);
        if p(s.last()) {
            let f = s.filter(p);
            assert(f == d.filter(p).push(s.last()));
            assert forall|i: int, j: int| 0 <= i < j < f.len() implies key(f[i]) != key(f[j]) by {
                if j == f.len() - 1 {
                    assert(d.filter(p).contains(f[i])) by {
                        assert(d.filter(p)[i] == f[i]);
                    }
                    d.lemma_filter_contains_rev(p, f[i]);
                    let k = choose|k: int| 0 <= k < d.len() && d[k] == f[i];
                    assert(s[k] == f[i]);
                }
            }
        }
    }
}

/// The reconciler's record.
pub struct StateDB {
    instances: Vec<Instance>,
    nodes: Vec<NodeInfo>,
    rollouts: Vec<Rollout>,
}

impl View for StateDB {
    type V = DbView;

    closed spec fn view(&self) -> DbView {
        DbView {
            instances: iviews(self.instances@),
            nodes: nviews(self.nodes@),
            rollouts: rviews(self.rollouts@),
        }
    }
}

impl StateDB {
    /// An empty record.
    pub fn new() -> (db: StateDB)
        ensures
            db@.wf(),
            db@.instances == Seq::<InstanceView>::empty(),
            db@.nodes == Seq::<NodeView>::empty(),
            db@.rollouts == Seq::<RolloutView>::empty(),
    {
        let db = StateDB { instances: Vec::new(), nodes: Vec::new(), rollouts: Vec::new() };
        assert(db@.instances =~= Seq::<InstanceView>::empty());
        assert(db@.nodes =~= Seq::<NodeView>::empty());
        assert(db@.rollouts =~= Seq::<RolloutView>::empty());
        db
    }

    // ----- nodes -----

    /// Names of all recorded nodes, in record order.
    pub fn load_nodes(&self) -> (r: Vec<String>)
        ensures
            sviews(r@) == self@.nodes.map_values(node_name()),
    {
        let mut r: Vec<String> = Vec::new();
        let mut i: usize = 0;
        while i < self.nodes.len()
            invariant
                i <= self.nodes@.len(),
                sviews(r@) == self@.nodes.take(i as int).map_values(node_name()),
            decreases self.nodes.len() - i,
        {
            let ghost r0 = r@;
            let nm = self.nodes[i].name.clone();
            assert(nm@ == self@.nodes[i as int].name);
            r.push(nm);
            assert(sviews(r@) =~= sviews(r0).push(nm@));
            i += 1;
            assert(sviews(r@) =~= self@.nodes.take(i as int).map_values(node_name()));
        }
        assert(self@.nodes.take(i as int) =~= self@.nodes);
        r
    }

    /// All node records, in record order.
    pub fn all_nodes(&self) -> (r: Vec<NodeInfo>)
        ensures
            nviews(r@) == self@.nodes,
    {
        let mut r: Vec<NodeInfo> = Vec::new();
        let mut i: usize = 0;
        while i < self.nodes.len()
            invariant
                i <= self.nodes@.len(),
                nviews(r@) == self@.nodes.take(i as int),
            decreases self.nodes.len() - i,
        {
            let ghost r0 = r@;
            let nn = NodeInfo { name: self.nodes[i].name.clone(), status: self.nodes[i].status.clone() };
            assert(nn@ == self.nodes@[i as int]@);
            assert(self@.nodes[i as int] == self.nodes@[i as int]@);
            r.push(nn);
            assert(nviews(r@) =~= nviews(r0).push(nn@));
            i += 1;
            assert(nviews(r@) =~= self@.nodes.take(i as int));
        }
        assert(self@.nodes.take(i as int) =~= self@.nodes);
        r
    }

    fn find_node(&self, name: &str) -> (r: Option<usize>)
        ensures
            match r {
                Some(i) => i < self@.nodes.len() && self@.nodes[i as int].name == name@,
                None => !has_node(self@.nodes, name@),
            },
    {
        let mut i: usize = 0;
        while i < self.nodes.len()
            invariant
                i <= self.nodes@.len(),
                forall|k: int| 0 <= k < i ==> self@.nodes[k].name != name@,
            decreases self.nodes.len() - i,
        {
            if str_eq(self.nodes[i].name.as_str(), name) {
                return Some(i);
            }
            i += 1;
        }
        None
    }

    /// Records each node as up, unless it is already recorded (its status is then kept).
    pub fn register_nodes(&mut self, nodes: &[String])
        requires
            old(self)@.wf(),
        ensures
            final(self)@.wf(),
            final(self)@.nodes == register_all(old(self)@.nodes, sviews(nodes@)),
            final(self)@.instances == old(self)@.instances,
            final(self)@.rollouts == old(self)@.rollouts,
    {
        let mut i: usize = 0;
        while i < nodes.len()
            invariant
                i <= nodes@.len(),
                self@.wf(),
                self@.nodes == register_all(old(self)@.nodes, sviews(nodes@).take(i as int)),
                self@.instances == old(self)@.instances,
                self@.rollouts == old(self)@.rollouts,
            decreases nodes.len() - i,
        {
            let ghost names = sviews(nodes@);
            assert(names.take(i + 1).drop_last() =~= names.take(i as int));
            assert(names.take(i + 1).last() == nodes@[i as int]@);
            let ghost n0 = self@.nodes;
            if self.find_node(nodes[i].as_str()).is_none() {
                let fresh = NodeInfo { name: nodes[i].clone(), status: String::from_str("up") };
                let ghost v0 = self.nodes@;
                self.nodes.push(fresh);
                proof {
                    assert(nviews(self.nodes@) =~= nviews(v0).push(fresh@));
                    assert(self@.nodes == n0.push(NodeView { name: nodes@[i as int]@, status: "up"@ }));
                    assert forall|a: int, b: int| 0 <= a < b < self@.nodes.len() implies self@.nodes[a].name != self@.nodes[b].name by {
                        if b == self@.nodes.len() - 1 {
                            assert(self@.nodes[a] == n0[a]);
                            assert(n0[a].name != nodes@[i as int]@);
                        } else {
                            assert(self@.nodes[a] == n0[a]);
                            assert(self@.nodes[b] == n0[b]);
                        }
                    }
                }
            }
            i += 1;
        }
        assert(sviews(nodes@).take(i as int) =~= sviews(nodes@));
    }

    fn set_status_of_node(&mut self, node: &str, status: &str)
        requires
            old(self)@.wf(),
        ensures
            final(self)@.wf(),
            final(self)@.nodes == set_node_status(old(self)@.nodes, node@, status@),
            final(self)@.instances == old(self)@.instances,
            final(self)@.rollouts == old(self)@.rollouts,
    {
        let mut i: usize = 0;
        while i < self.nodes.len()
            invariant
                i <= self.nodes@.len(),
                self.nodes@.len() == old(self).nodes@.len(),
                forall|k: int| 0 <= k < i ==> self@.nodes[k] == set_node_status(old(self)@.nodes, node@, status@)[k],
                forall|k: int| i <= k < self.nodes@.len() ==> self@.nodes[k] == old(self)@.nodes[k],
                self@.instances == old(self)@.instances,
                self@.rollouts == old(self)@.rollouts,
            decreases self.nodes.len() - i,
        {
            let ghost v0 = self.nodes@;
            let ghost goal = set_node_status(old(self)@.nodes, node@, status@);
            let hit = str_eq(self.nodes[i].name.as_str(), node);
            assert(nviews(v0)[i as int] == old(self)@.nodes[i as int]);
            if hit {
                let updated = NodeInfo { name: self.nodes[i].name.clone(), status: String::from_str(status) };
                self.nodes.set(i, updated);
                assert(self.nodes@ == v0.update(i as int, updated));
            }
            proof {
                assert forall|k: int| 0 <= k < i + 1 implies nviews(self.nodes@)[k] == goal[k] by {
                    if k < i {
                        assert(self.nodes@[k] == v0[k]);
                        assert(nviews(v0)[k] == goal[k]);
                    } else if !hit {
                        assert(self.nodes@[k] == v0[k]);
                        assert(old(self)@.nodes[k].name != node@);
                    }
                }
                assert forall|k: int| i + 1 <= k < self.nodes@.len() implies nviews(self.nodes@)[k] == old(self)@.nodes[k] by {
                    assert(self.nodes@[k] == v0[k]);
                    assert(nviews(v0)[k] == old(self)@.nodes[k]);
                }
            }
            i += 1;
        }
        assert(self@.nodes =~= set_node_status(old(self)@.nodes, node@, status@));
    }

    /// Marks a recorded node as down (no effect when it is not recorded).
    pub fn mark_node_down(&mut self, node: &str)
        requires
            old(self)@.wf(),
        ensures
            final(self)@.wf(),
            final(self)@.nodes == set_node_status(old(self)@.nodes, node@, "down"@),
            final(self)@.instances == old(self)@.instances,
            final(self)@.rollouts == old(self)@.rollouts,
    {
        self.set_status_of_node(node, "down");
    }

    /// Marks a recorded node as up (no effect when it is not recorded).
    pub fn mark_node_up(&mut self, node: &str)
        requires
            old(self)@.wf(),
        ensures
            final(self)@.wf(),
            final(self)@.nodes == set_node_status(old(self)@.nodes, node@, "up"@),
            final(self)@.instances == old(self)@.instances,
            final(self)@.rollouts == old(self)@.rollouts,
    {
        self.set_status_of_node(node, "up");
    }

    /// The status of a node, or `None` when it is not recorded.
    pub fn get_node_status(&self, node: &str) -> (r: Option<String>)
        requires
            self@.wf(),
        ensures
            match r {
                Some(s) => node_status_of(self@.nodes, node@) == Some(s@),
                None => node_status_of(self@.nodes, node@) is None,
            },
    {
        let mut i: usize = self.nodes.len();
        assert(self@.nodes.take(i as int) =~= self@.nodes);
        while i > 0
            invariant
                i <= self.nodes@.len(),
                node_status_of(self@.nodes, node@) == node_status_of(self@.nodes.take(i as int), node@),
            decreases i,
        {
            let ghost t = self@.nodes.take(i as int);
            assert(t.drop_last() =~= self@.nodes.take(i - 1));
            if str_eq(self.nodes[i - 1].name.as_str(), node) {
                return Some(self.nodes[i - 1].status.clone());
            }
            i -= 1;
        }
        None
    }

    /// Names of the nodes that are up, in record order.
    pub fn get_up_nodes(&self) -> (r: Vec<String>)
        ensures
            sviews(r@) == up_node_names(self@.nodes),
    {
        let mut r: Vec<String> = Vec::new();
        let mut i: usize = 0;
        while i < self.nodes.len()
            invariant
                i <= self.nodes@.len(),
                sviews(r@) == up_node_names(self@.nodes.take(i as int)),
            decreases self.nodes.len() - i,
        {
            let ghost t = self@.nodes.take(i as int);
            assert(self@.nodes.take(i + 1) =~= t.push(self@.nodes[i as int]));
            proof { t.lemma_filter_push(self@.nodes[i as int], node_is_up()); }
            let ghost r0 = r@;
            if str_eq(self.nodes[i].status.as_str(), "up") {
                let nm = self.nodes[i].name.clone();
                r.push(nm);
                assert(sviews(r@) =~= sviews(r0).push(nm@));
            }
            i += 1;
            assert(sviews(r@) =~= up_node_names(self@.nodes.take(i as int)));
        }
        assert(self@.nodes.take(i as int) =~= self@.nodes);
        r
    }

    // ----- instances -----

    fn filtered_instances(&self, id: &str, mode: u8) -> (r: Vec<Instance>)
        requires
            mode <= 1,
        ensures
            mode == 0 ==> iviews(r@) == self@.instances.filter(instance_id_is_not(id@)),
            mode == 1 ==> iviews(r@) == self@.instances.filter(instance_of_spec(id@)),
    {
        let ghost keep = if mode == 0 { instance_id_is_not(id@) } else { instance_of_spec(id@) };
        let mut r: Vec<Instance> = Vec::new();
        let mut i: usize = 0;
        while i < self.instances.len()
            invariant
                mode == 0 ==> keep == instance_id_is_not(id@),
                mode == 1 ==> keep == instance_of_spec(id@),
                mode <= 1,
                i <= self.instances@.len(),
                iviews(r@) == self@.instances.take(i as int).filter(keep),
            decreases self.instances.len() - i,
        {
            let ghost t = self@.instances.take(i as int);
            assert(self@.instances.take(i + 1) =~= t.push(self@.instances[i as int]));
            proof { t.lemma_filter_push(self@.instances[i as int], keep); }
            let hit = if mode == 0 {
                !str_eq(self.instances[i].id.as_str(), id)
            } else {
                str_eq(self.instances[i].spec_name.as_str(), id)
            };
            if hit {
                r.push(self.instances[i].duplicate());
            }
            i += 1;
            assert(iviews(r@) =~= self@.instances.take(i as int).filter(keep));
        }
        assert(self@.instances.take(i as int) =~= self@.instances);
        r
    }

    /// Writes an instance record, replacing any record with the same id.
    pub fn insert_instance(&mut self, inst: &Instance)
        requires
            old(self)@.wf(),
        ensures
            final(self)@.wf(),
            final(self)@.instances == put_instance(old(self)@.instances, inst@),
            final(self)@.nodes == old(self)@.nodes,
            final(self)@.rollouts == old(self)@.rollouts,
    {
        let mut kept = self.filtered_instances(inst.id.as_str(), 0);
        proof {
            lemma_filter_keeps_distinct_keys(old(self)@.instances, instance_id_is_not(inst.id@), |x: InstanceView| x.id);
        }
        kept.push(inst.duplicate());
        self.instances = kept;
        proof {
            let f = old(self)@.instances.filter(instance_id_is_not(inst.id@));
            assert(iviews(self.instances@) =~= f.push(inst@));
            assert forall|a: int, b: int| 0 <= a < b < self@.instances.len() implies self@.instances[a].id != self@.instances[b].id by {
                if b == self@.instances.len() - 1 {
                    old(self)@.instances.lemma_filter_pred(instance_id_is_not(inst.id@), a);
                }
            }
        }
    }

    /// Deletes the instance record called `id` (no effect when there is none).
    pub fn delete_instance(&mut self, id: &str)
        requires
            old(self)@.wf(),
        ensures
            final(self)@.wf(),
            final(self)@.instances == without_instance(old(self)@.instances, id@),
            final(self)@.nodes == old(self)@.nodes,
            final(self)@.rollouts == old(self)@.rollouts,
    {
        let kept = self.filtered_instances(id, 0);
        proof {
            lemma_filter_keeps_distinct_keys(old(self)@.instances, instance_id_is_not(id@), |x: InstanceView| x.id);
        }
        self.instances = kept;
    }

    fn edit_instance(&mut self, id: &str, value: &str, field_is_status: bool)
        requires
            old(self)@.wf(),
        ensures
            final(self)@.wf(),
            field_is_status ==> final(self)@.instances == set_instance_status(old(self)@.instances, id@, value@),
            !field_is_status ==> final(self)@.instances == set_instance_hash(old(self)@.instances, id@, value@),
            final(self)@.nodes == old(self)@.nodes,
            final(self)@.rollouts == old(self)@.rollouts,
    {
        let ghost goal = if field_is_status {
            set_instance_status(old(self)@.instances, id@, value@)
        } else {
            set_instance_hash(old(self)@.instances, id@, value@)
        };
        let mut i: usize = 0;
        while i < self.instances.len()
            invariant
                goal == (if field_is_status {
                    set_instance_status(old(self)@.instances, id@, value@)
                } else {
                    set_instance_hash(old(self)@.instances, id@, value@)
                }),
                i <= self.instances@.len(),
                self.instances@.len() == old(self).instances@.len(),
                forall|k: int| 0 <= k < i ==> self@.instances[k] == goal[k],
                forall|k: int| i <= k < self.instances@.len() ==> self@.instances[k] == old(self)@.instances[k],
                self@.nodes == old(self)@.nodes,
                self@.rollouts == old(self)@.rollouts,
            decreases self.instances.len() - i,
        {
            if str_eq(self.instances[i].id.as_str(), id) {
                let mut updated = self.instances[i].duplicate();
                if field_is_status {
                    updated.status = String::from_str(value);
                } else {
                    updated.spec_hash = String::from_str(value);
                }
                self.instances.set(i, updated);
            }
            i += 1;
        }
        assert(self@.instances =~= goal);
    }

    /// Sets the status of instance `id` (no effect when there is none).
    pub fn update_instance_status(&mut self, id: &str, status: &str)
        requires
            old(self)@.wf(),
        ensures
            final(self)@.wf(),
            final(self)@.instances == set_instance_status(old(self)@.instances, id@, status@),
            final(self)@.nodes == old(self)@.nodes,
            final(self)@.rollouts == old(self)@.rollouts,
    {
        self.edit_instance(id, status, true);
    }

    /// Sets the spec hash of instance `id` (no effect when there is none).
    pub fn update_instance_hash(&mut self, id: &str, spec_hash: &str)
        requires
            old(self)@.wf(),
        ensures
            final(self)@.wf(),
            final(self)@.instances == set_instance_hash(old(self)@.instances, id@, spec_hash@),
            final(self)@.nodes == old(self)@.nodes,
            final(self)@.rollouts == old(self)@.rollouts,
    {
        self.edit_instance(id, spec_hash, false);
    }

    /// The instances of one spec, in record order.
    pub fn get_instances(&self, spec_name: &str) -> (r: Vec<Instance>)
        ensures
            iviews(r@) == instances_of(self@.instances, spec_name@),
    {
        self.filtered_instances(spec_name, 1)
    }

    /// Every instance, in record order.
    pub fn get_all_instances(&self) -> (r: Vec<Instance>)
        ensures
            iviews(r@) == self@.instances,
    {
        let mut r: Vec<Instance> = Vec::new();
        let mut i: usize = 0;
        while i < self.instances.len()
            invariant
                i <= self.instances@.len(),
                iviews(r@) == self@.instances.take(i as int),
            decreases self.instances.len() - i,
        {
            let ghost r0 = r@;
            let x = self.instances[i].duplicate();
            r.push(x);
            assert(iviews(r@) =~= iviews(r0).push(x@));
            i += 1;
            assert(iviews(r@) =~= self@.instances.take(i as int));
        }
        assert(self@.instances.take(i as int) =~= self@.instances);
        r
    }

    /// How many instances on `node` are not being deleted; `None` when that number
    /// does not fit in a `u32`.
    pub fn instance_count_on_node(&self, node: &str) -> (r: Option<u32>)
        ensures
            match r {
                Some(c) => c as nat == active_count(self@.instances, node@),
                None => active_count(self@.instances, node@) > u32::MAX,
            },
    {
        let mut c: usize = 0;
        let mut i: usize = 0;
        while i < self.instances.len()
            invariant
                i <= self.instances@.len(),
                c as nat == active_count(self@.instances.take(i as int), node@),
                c <= i,
            decreases self.instances.len() - i,
        {
            let ghost t = self@.instances.take(i as int);
            assert(self@.instances.take(i + 1) =~= t.push(self@.instances[i as int]));
            proof { t.lemma_filter_push(self@.instances[i as int], active_on_node(node@)); }
            if str_eq(self.instances[i].node.as_str(), node) && !str_eq(self.instances[i].status.as_str(), "deleting") {
                c += 1;
            }
            i += 1;
        }
        assert(self@.instances.take(i as int) =~= self@.instances);
        if c <= u32::MAX as usize {
            Some(c as u32)
        } else {
            None
        }
    }

    // ----- rollouts -----

    /// All rollout records.
    pub fn all_rollouts(&self) -> (r: Vec<Rollout>)
        ensures
            rviews(r@) == self@.rollouts,
    {
        let mut r: Vec<Rollout> = Vec::new();
        let mut i: usize = 0;
        while i < self.rollouts.len()
            invariant
                i <= self.rollouts@.len(),
                rviews(r@) == self@.rollouts.take(i as int),
            decreases self.rollouts.len() - i,
        {
            let ghost r0 = r@;
            let x = self.rollouts[i].duplicate();
            r.push(x);
            assert(rviews(r@) =~= rviews(r0).push(x@));
            i += 1;
            assert(rviews(r@) =~= self@.rollouts.take(i as int));
        }
        assert(self@.rollouts.take(i as int) =~= self@.rollouts);
        r
    }

    /// The rollout of a spec, if one is recorded.
    pub fn get_rollout(&self, spec_name: &str) -> (r: Option<Rollout>)
        ensures
            match r {
                Some(x) => rollout_of(self@.rollouts, spec_name@) == Some(x@),
                None => rollout_of(self@.rollouts, spec_name@) is None,
            },
    {
        let mut i: usize = self.rollouts.len();
        assert(self@.rollouts.take(i as int) =~= self@.rollouts);
        while i > 0
            invariant
                i <= self.rollouts@.len(),
                rollout_of(self@.rollouts, spec_name@) == rollout_of(self@.rollouts.take(i as int), spec_name@),
            decreases i,
        {
            let ghost t = self@.rollouts.take(i as int);
            assert(t.drop_last() =~= self@.rollouts.take(i - 1));
            if str_eq(self.rollouts[i - 1].spec_name.as_str(), spec_name) {
                return Some(self.rollouts[i - 1].duplicate());
            }
            i -= 1;
        }
        None
    }

    fn rollouts_without(&self, name: &str) -> (r: Vec<Rollout>)
        ensures
            rviews(r@) == without_rollout(self@.rollouts, name@),
    {
        let mut r: Vec<Rollout> = Vec::new();
        let mut i: usize = 0;
        while i < self.rollouts.len()
            invariant
                i <= self.rollouts@.len(),
                rviews(r@) == self@.rollouts.take(i as int).filter(rollout_is_not(name@)),
            decreases self.rollouts.len() - i,
        {
            let ghost t = self@.rollouts.take(i as int);
            assert(self@.rollouts.take(i + 1) =~= t.push(self@.rollouts[i as int]));
            proof { t.lemma_filter_push(self@.rollouts[i as int], rollout_is_not(name@)); }
            if !str_eq(self.rollouts[i].spec_name.as_str(), name) {
                r.push(self.rollouts[i].duplicate());
            }
            i += 1;
            assert(rviews(r@) =~= self@.rollouts.take(i as int).filter(rollout_is_not(name@)));
        }
        assert(self@.rollouts.take(i as int) =~= self@.rollouts);
        r
    }

    /// Writes a rollout record, replacing any for the same spec.
    pub fn insert_rollout(&mut self, rollout: &Rollout)
        requires
            old(self)@.wf(),
        ensures
            final(self)@.wf(),
            final(self)@.rollouts == put_rollout(old(self)@.rollouts, rollout@),
            final(self)@.nodes == old(self)@.nodes,
            final(self)@.instances == old(self)@.instances,
    {
        let mut kept = self.rollouts_without(rollout.spec_name.as_str());
        proof {
            lemma_filter_keeps_distinct_keys(old(self)@.rollouts, rollout_is_not(rollout.spec_name@), |x: RolloutView| x.spec_name);
        }
        kept.push(rollout.duplicate());
        self.rollouts = kept;
        proof {
            let f = old(self)@.rollouts.filter(rollout_is_not(rollout.spec_name@));
            assert(rviews(self.rollouts@) =~= f.push(rollout@));
            assert forall|a: int, b: int| 0 <= a < b < self@.rollouts.len() implies self@.rollouts[a].spec_name != self@.rollouts[b].spec_name by {
                if b == self@.rollouts.len() - 1 {
                    old(self)@.rollouts.lemma_filter_pred(rollout_is_not(rollout.spec_name@), a);
                }
            }
        }
    }

    /// Deletes the rollout of a spec (no effect when there is none).
    pub fn delete_rollout(&mut self, spec_name: &str)
        requires
            old(self)@.wf(),
        ensures
            final(self)@.wf(),
            final(self)@.rollouts == without_rollout(old(self)@.rollouts, spec_name@),
            final(self)@.nodes == old(self)@.nodes,
            final(self)@.instances == old(self)@.instances,
    {
        let kept = self.rollouts_without(spec_name);
        proof {
            lemma_filter_keeps_distinct_keys(old(self)@.rollouts, rollout_is_not(spec_name@), |x: RolloutView| x.spec_name);
        }
        self.rollouts = kept;
    }

    /// Sets the phase of a spec's rollout (no effect when there is none).
    pub fn update_rollout_phase(&mut self, spec_name: &str, phase: &str)
        requires
            old(self)@.wf(),
        ensures
            final(self)@.wf(),
            final(self)@.rollouts == set_rollout_phase(old(self)@.rollouts, spec_name@, phase@),
            final(self)@.nodes == old(self)@.nodes,
            final(self)@.instances == old(self)@.instances,
    {
        let mut i: usize = 0;
        while i < self.rollouts.len()
            invariant
                i <= self.rollouts@.len(),
                self.rollouts@.len() == old(self).rollouts@.len(),
                forall|k: int| 0 <= k < i ==> self@.rollouts[k] == set_rollout_phase(old(self)@.rollouts, spec_name@, phase@)[k],
                forall|k: int| i <= k < self.rollouts@.len() ==> self@.rollouts[k] == old(self)@.rollouts[k],
                self@.nodes == old(self)@.nodes,
                self@.instances == old(self)@.instances,
            decreases self.rollouts.len() - i,
        {
            let ghost v0 = self.rollouts@;
            let ghost goal = set_rollout_phase(old(self)@.rollouts, spec_name@, phase@);
            let hit = str_eq(self.rollouts[i].spec_name.as_str(), spec_name);
            assert(rviews(v0)[i as int] == old(self)@.rollouts[i as int]);
            if hit {
                let mut updated = self.rollouts[i].duplicate();
                assert(updated@ == old(self)@.rollouts[i as int]);
                updated.phase = String::from_str(phase);
                self.rollouts.set(i, updated);
                assert(self.rollouts@ == v0.update(i as int, updated));
            }
            proof {
                assert forall|k: int| 0 <= k < i + 1 implies rviews(self.rollouts@)[k] == goal[k] by {
                    if k < i {
                        assert(self.rollouts@[k] == v0[k]);
                        assert(rviews(v0)[k] == goal[k]);
                    } else if !hit {
                        assert(self.rollouts@[k] == v0[k]);
                        assert(old(self)@.rollouts[k].spec_name != spec_name@);
                    }
                }
                assert forall|k: int| i + 1 <= k < self.rollouts@.len() implies rviews(self.rollouts@)[k] == old(self)@.rollouts[k] by {
                    assert(self.rollouts@[k] == v0[k]);
                    assert(rviews(v0)[k] == old(self)@.rollouts[k]);
                }
            }
            i += 1;
        }
        assert(self@.rollouts =~= set_rollout_phase(old(self)@.rollouts, spec_name@, phase@));
    }

    /// Counts one more instance created by a spec's rollout (no effect when there is none).
    pub fn increment_rollout_count(&mut self, spec_name: &str)
        requires
            old(self)@.wf(),
            rollout_of(old(self)@.rollouts, spec_name@) matches Some(r) ==> r.created_count < u32::MAX,
        ensures
            final(self)@.wf(),
            final(self)@.rollouts == bump_rollout_count(old(self)@.rollouts, spec_name@),
            final(self)@.nodes == old(self)@.nodes,
            final(self)@.instances == old(self)@.instances,
    {
        proof {
            assert forall|k: int| 0 <= k < old(self)@.rollouts.len() && old(self)@.rollouts[k].spec_name == spec_name@
                implies old(self)@.rollouts[k].created_count < u32::MAX by {
                lemma_rollout_of_unique(old(self)@.rollouts, spec_name@, k);
            }
        }
        let mut i: usize = 0;
        while i < self.rollouts.len()
            invariant
                i <= self.rollouts@.len(),
                self.rollouts@.len() == old(self).rollouts@.len(),
                forall|k: int| 0 <= k < old(self)@.rollouts.len() && old(self)@.rollouts[k].spec_name == spec_name@
                    ==> old(self)@.rollouts[k].created_count < u32::MAX,
                forall|k: int| 0 <= k < i ==> self@.rollouts[k] == bump_rollout_count(old(self)@.rollouts, spec_name@)[k],
                forall|k: int| i <= k < self.rollouts@.len() ==> self@.rollouts[k] == old(self)@.rollouts[k],
                self@.nodes == old(self)@.nodes,
                self@.instances == old(self)@.instances,
            decreases self.rollouts.len() - i,
        {
            let ghost v0 = self.rollouts@;
            let ghost goal = bump_rollout_count(old(self)@.rollouts, spec_name@);
            let hit = str_eq(self.rollouts[i].spec_name.as_str(), spec_name);
            assert(rviews(v0)[i as int] == old(self)@.rollouts[i as int]);
            if hit {
                let mut updated = self.rollouts[i].duplicate();
                assert(updated@ == old(self)@.rollouts[i as int]);
                updated.created_count = updated.created_count + 1;
                self.rollouts.set(i, updated);
                assert(self.rollouts@ == v0.update(i as int, updated));
            }
            proof {
                assert forall|k: int| 0 <= k < i + 1 implies rviews(self.rollouts@)[k] == goal[k] by {
                    if k < i {
                        assert(self.rollouts@[k] == v0[k]);
                        assert(rviews(v0)[k] == goal[k]);
                    } else if !hit {
                        assert(self.rollouts@[k] == v0[k]);
                        assert(old(self)@.rollouts[k].spec_name != spec_name@);
                    }
                }
                assert forall|k: int| i + 1 <= k < self.rollouts@.len() implies rviews(self.rollouts@)[k] == old(self)@.rollouts[k] by {
                    assert(self.rollouts@[k] == v0[k]);
                    assert(rviews(v0)[k] == old(self)@.rollouts[k]);
                }
            }
            i += 1;
        }
        assert(self@.rollouts =~= bump_rollout_count(old(self)@.rollouts, spec_name@));
    }
}

/// With unique spec names, the rollout recorded for a name is the record at its position.
pub proof fn lemma_rollout_of_unique(rs: Seq<RolloutView>, name: Seq<char>, k: int)
    requires
        unique_rollout_names(rs),
        0 <= k < rs.len(),
        rs[k].spec_name == name,
    ensures
        rollout_of(rs, name) == Some(rs[k]),
    decreases rs.len(),
{
    if k < rs.len() - 1 {
        lemma_rollout_of_unique(rs.drop_last(), name, k);
    }
}

} // verus!

verus! {

/// Writing an instance record, then reading: the record is stored and listed among its
/// spec's instances, it is the only record with its id, every record with another id is
/// kept, and ids stay unique.
pub proof fn law_put_instance_read_back(s: Seq<InstanceView>, inst: InstanceView)
    requires
        unique_instance_ids(s),
    ensures
        unique_instance_ids(put_instance(s, inst)),
        put_instance(s, inst).contains(inst),
        instances_of(put_instance(s, inst), inst.spec_name).contains(inst),
        forall|x: InstanceView| #[trigger] put_instance(s, inst).contains(x) && x.id == inst.id ==> x == inst,
        forall|x: InstanceView| #[trigger] s.contains(x) && x.id != inst.id ==> put_instance(s, inst).contains(x),
{
    let p = instance_id_is_not(inst.id);
    let w = s.filter(p);
    let t = put_instance(s, inst);
    assert(t == w.push(inst));
    lemma_filter_keeps_distinct_keys(s, p, |x: InstanceView| x.id);
    assert forall|i: int, j: int| 0 <= i < j < t.len() implies t[i].id != t[j].id by {
        if j == t.len() - 1 {
            s.lemma_filter_pred(p, i);
        } else {
            assert(w[i].id != w[j].id);
        }
    }
    assert(t[t.len() - 1] == inst);
    t.lemma_filter_contains(instance_of_spec(inst.spec_name), t.len() - 1);
    assert forall|x: InstanceView| #[trigger] t.contains(x) && x.id == inst.id implies x == inst by {
        let k = choose|k: int| 0 <= k < t.len() && t[k] == x;
        if k < t.len() - 1 {
            s.lemma_filter_pred(p, k);
        }
    }
    assert forall|x: InstanceView| #[trigger] s.contains(x) && x.id != inst.id implies t.contains(x) by {
        let k = choose|k: int| 0 <= k < s.len() && s[k] == x;
        s.lemma_filter_contains(p, k);
        let m = choose|m: int| 0 <= m < w.len() && w[m] == x;
        assert(t[m] == x);
    }
}

/// Deleting an instance record: no record with that id remains, and every record with
/// another id is kept.
pub proof fn law_delete_instance_removes(s: Seq<InstanceView>, id: Seq<char>)
    ensures
        forall|x: InstanceView| #[trigger] without_instance(s, id).contains(x) ==> x.id != id && s.contains(x),
        forall|x: InstanceView| #[trigger] s.contains(x) && x.id != id ==> without_instance(s, id).contains(x),
{
    let p = instance_id_is_not(id);
    let w = s.filter(p);
    assert forall|x: InstanceView| #[trigger] w.contains(x) implies x.id != id && s.contains(x) by {
        let k = choose|k: int| 0 <= k < w.len() && w[k] == x;
        s.lemma_filter_pred(p, k);
        s.lemma_filter_contains_rev(p, x);
    }
    assert forall|x: InstanceView| #[trigger] s.contains(x) && x.id != id implies w.contains(x) by {
        let k = choose|k: int| 0 <= k < s.len() && s[k] == x;
        s.lemma_filter_contains(p, k);
    }
}

/// Updating an instance's status: the records with that id read back with the new status
/// and otherwise unchanged; all other records are unchanged.
pub proof fn law_instance_status_read_back(s: Seq<InstanceView>, id: Seq<char>, status: Seq<char>)
    ensures
        set_instance_status(s, id, status).len() == s.len(),
        forall|k: int|
            0 <= k < s.len() ==> #[trigger] set_instance_status(s, id, status)[k] == if s[k].id == id {
                InstanceView { status, ..s[k] }
            } else {
                s[k]
            },
{
}

/// Marking a node down removes it from the nodes that are up.
pub proof fn law_node_down_not_up(nodes: Seq<NodeView>, name: Seq<char>)
    ensures
        !up_node_names(set_node_status(nodes, name, "down"@)).contains(name),
{
    reveal_strlit("down");
    reveal_strlit("up");
    let t = set_node_status(nodes, name, "down"@);
    let f = t.filter(node_is_up());
    if up_node_names(t).contains(name) {
        let k = choose|k: int| 0 <= k < up_node_names(t).len() && up_node_names(t)[k] == name;
        t.lemma_filter_pred(node_is_up(), k);
        t.lemma_filter_contains_rev(node_is_up(), f[k]);
        let j = choose|j: int| 0 <= j < t.len() && t[j] == f[k];
        assert(t[j].name == name);
        assert(t[j].status == "down"@);
        assert(f[k].status == "up"@);
        assert("down"@[0] != "up"@[0]);
    }
}

/// Marking a recorded node up lists it among the nodes that are up.
pub proof fn law_node_up_listed(nodes: Seq<NodeView>, name: Seq<char>)
    requires
        has_node(nodes, name),
    ensures
        up_node_names(set_node_status(nodes, name, "up"@)).contains(name),
{
    let t = set_node_status(nodes, name, "up"@);
    let j = choose|j: int| 0 <= j < nodes.len() && nodes[j].name == name;
    assert(t[j].name == name && t[j].status == "up"@);
    t.lemma_filter_contains(node_is_up(), j);
    let f = t.filter(node_is_up());
    let k = choose|k: int| 0 <= k < f.len() && f[k] == t[j];
    assert(up_node_names(t)[k] == name);
}

/// Registering nodes: every registered name is recorded; a name recorded before keeps its
/// status, and a new one is `up`.
pub proof fn law_register_nodes(nodes: Seq<NodeView>, names: Seq<Seq<char>>, n: Seq<char>)
    requires
        names.contains(n) || has_node(nodes, n),
    ensures
        has_node(register_all(nodes, names), n),
        node_status_of(register_all(nodes, names), n) == if has_node(nodes, n) {
            node_status_of(nodes, n)
        } else {
            Some("up"@)
        },
    decreases names.len(),
{
    if names.len() > 0 {
        let prev = names.drop_last();
        let r0 = register_all(nodes, prev);
        if prev.contains(n) || has_node(nodes, n) {
            law_register_nodes(nodes, prev, n);
            if !has_node(r0, names.last()) {
                let j = choose|j: int| 0 <= j < r0.len() && r0[j].name == n;
                assert(register_all(nodes, names)[j] == r0[j]);
                assert(register_all(nodes, names).drop_last() =~= r0);
            }
        } else {
            assert(names.last() == n) by {
                let k = choose|k: int| 0 <= k < names.len() && names[k] == n;
                if k < names.len() - 1 {
                    assert(prev[k] == n);
                }
            }
            lemma_not_registered(nodes, prev, n);
            let t = register_all(nodes, names);
            assert(t.last().name == n);
        }
    }
}

/// A name neither listed nor recorded before is not recorded after registering.
proof fn lemma_not_registered(nodes: Seq<NodeView>, names: Seq<Seq<char>>, n: Seq<char>)
    requires
        !names.contains(n),
        !has_node(nodes, n),
    ensures
        !has_node(register_all(nodes, names), n),
    decreases names.len(),
{
    if names.len() > 0 {
        let prev = names.drop_last();
        assert(!prev.contains(n)) by {
            if prev.contains(n) {
                let k = choose|k: int| 0 <= k < prev.len() && prev[k] == n;
                assert(names[k] == n);
            }
        }
        lemma_not_registered(nodes, prev, n);
        let r0 = register_all(nodes, prev);
        let t = register_all(nodes, names);
        if has_node(t, n) {
            let j = choose|j: int| 0 <= j < t.len() && t[j].name == n;
            if !has_node(r0, names.last()) && j == r0.len() {
                assert(names.last() == names[names.len() - 1]);
            } else {
                assert(r0[j].name == n);
            }
        }
    }
}

} // verus!

verus! {

/// Lookup of a name other than `name` is the same without the rollout for `name`.
pub(crate) proof fn lemma_rollout_of_without(rs: Seq<RolloutView>, name: Seq<char>, n: Seq<char>)
    ensures
        rollout_of(without_rollout(rs, name), n) == if n == name {
            None
        } else {
            rollout_of(rs, n)
        },
    decreases rs.len(),
{
    reveal(Seq::filter);
    if rs.len() > 0 {
        lemma_rollout_of_without(rs.drop_last(), name, n);
        let sub = rs.drop_last().filter(rollout_is_not(name));
        if rs.last().spec_name != name {
            assert(without_rollout(rs, name) == sub.push(rs.last()));
            assert(sub.push(rs.last()).drop_last() =~= sub);
        } else {
            assert(without_rollout(rs, name) == sub);
        }
    }
}

/// Writing a rollout, then reading: it is the rollout of its spec, the rollouts of other
/// specs are unchanged, and spec names stay unique.
pub proof fn law_put_rollout_read_back(rs: Seq<RolloutView>, r: RolloutView, n: Seq<char>)
    requires
        unique_rollout_names(rs),
    ensures
        unique_rollout_names(put_rollout(rs, r)),
        rollout_of(put_rollout(rs, r), r.spec_name) == Some(r),
        n != r.spec_name ==> rollout_of(put_rollout(rs, r), n) == rollout_of(rs, n),
{
    let p = rollout_is_not(r.spec_name);
    let w = rs.filter(p);
    let t = put_rollout(rs, r);
    lemma_filter_keeps_distinct_keys(rs, p, |x: RolloutView| x.spec_name);
    assert forall|i: int, j: int| 0 <= i < j < t.len() implies t[i].spec_name != t[j].spec_name by {
        if j == t.len() - 1 {
            rs.lemma_filter_pred(p, i);
        } else {
            assert(w[i].spec_name != w[j].spec_name);
        }
    }
    assert(t.drop_last() =~= w);
    lemma_rollout_of_without(rs, r.spec_name, n);
}

/// Deleting the rollout of a spec, then reading: there is none.
pub proof fn law_delete_rollout_gone(rs: Seq<RolloutView>, name: Seq<char>)
    ensures
        rollout_of(without_rollout(rs, name), name) is None,
{
    lemma_rollout_of_without(rs, name, name);
}

/// Setting the phase of a spec's rollout, then reading: the rollout has the new phase and
/// is otherwise unchanged.
pub proof fn law_rollout_phase_read_back(rs: Seq<RolloutView>, name: Seq<char>, phase: Seq<char>)
    ensures
        rollout_of(set_rollout_phase(rs, name, phase), name) == match rollout_of(rs, name) {
            Some(r) => Some(RolloutView { phase, ..r }),
            None => None,
        },
    decreases rs.len(),
{
    if rs.len() > 0 {
        law_rollout_phase_read_back(rs.drop_last(), name, phase);
        assert(set_rollout_phase(rs, name, phase).drop_last() =~= set_rollout_phase(
            rs.drop_last(),
            name,
            phase,
        ));
    }
}

/// Counting a created instance of a spec's rollout, then reading: the count is one higher
/// and the rollout is otherwise unchanged.
pub proof fn law_rollout_count_read_back(rs: Seq<RolloutView>, name: Seq<char>)
    ensures
        rollout_of(bump_rollout_count(rs, name), name) == match rollout_of(rs, name) {
            Some(r) => Some(RolloutView { created_count: (r.created_count + 1) as u32, ..r }),
            None => None,
        },
    decreases rs.len(),
{
    if rs.len() > 0 {
        law_rollout_count_read_back(rs.drop_last(), name);
        assert(bump_rollout_count(rs, name).drop_last() =~= bump_rollout_count(
            rs.drop_last(),
            name,
        ));
    }
}

/// Setting the phase of the rollout for `name` leaves the lookup of any other name as it was.
pub(crate) proof fn lemma_rollout_phase_other(rs: Seq<RolloutView>, name: Seq<char>, phase: Seq<char>, n: Seq<char>)
    requires
        n != name,
    ensures
        rollout_of(set_rollout_phase(rs, name, phase), n) == rollout_of(rs, n),
    decreases rs.len(),
{
    if rs.len() > 0 {
        lemma_rollout_phase_other(rs.drop_last(), name, phase, n);
        assert(set_rollout_phase(rs, name, phase).drop_last() =~= set_rollout_phase(rs.drop_last(), name, phase));
    }
}

/// Counting a created instance for `name` leaves the lookup of any other name as it was.
pub(crate) proof fn lemma_rollout_count_other(rs: Seq<RolloutView>, name: Seq<char>, n: Seq<char>)
    requires
        n != name,
    ensures
        rollout_of(bump_rollout_count(rs, name), n) == rollout_of(rs, n),
    decreases rs.len(),
{
    if rs.len() > 0 {
        lemma_rollout_count_other(rs.drop_last(), name, n);
        assert(bump_rollout_count(rs, name).drop_last() =~= bump_rollout_count(rs.drop_last(), name));
    }
}

} // verus!

