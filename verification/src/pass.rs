//! What one step of a reconciliation pass does, stage by stage.
//!
//! [`step_effect`] is the contract of [`Reconciler::step`]: for the stage the pass stands
//! in, the command asked for, the lines logged, the change to the record and where the
//! pass goes next.

use vstd::prelude::*;
use crate::exec::spec_substitute;
use crate::scheduler::{instance_name, lemma_instance_name_injective};
use crate::reconciler::{flagged, lemma_oldest_index_range, oldest_first, oldest_index, are_orphan_groups, available_nodes, built_from, count_true, excess_choice,
    group_members_of, group_names_of, is_new_placement, live, rollout_cleanup_lines, rollouts_without,
    spec_names, stale, step_post, Reconciler, SpecEntry, Stage, Step};
use crate::spec::{InstanceView, RolloutView};
use crate::state::{lemma_filter_keeps_distinct_keys, unique_instance_ids, bump_rollout_count, instances_of, iviews, put_instance, put_rollout, register_all,
    rollout_of, set_instance_status, set_rollout_phase, without_instance, without_rollout};
use crate::text::spec_decimal;

verus! {

/// The spec the pass is reconciling.
pub open spec fn current_entry(rec: Reconciler) -> SpecEntry {
    rec.specs_view()[rec.spec_position() as int]
}

/// The name of the spec the pass is reconciling.
pub open spec fn current_name(rec: Reconciler) -> Seq<char> {
    current_entry(rec).spec.name@
}

/// The record's instances and rollouts are as before; only node records may differ.
pub open spec fn same_work_record(pre: Reconciler, post: Reconciler) -> bool {
    &&& post.db_view().instances == pre.db_view().instances
    &&& post.db_view().rollouts == pre.db_view().rollouts
}

/// The spec being reconciled, its instances, and what its health checks gathered stay
/// as they were.
pub open spec fn same_spec_work(pre: Reconciler, post: Reconciler) -> bool {
    &&& post.spec_position() == pre.spec_position()
    &&& post.current_hash_view() == pre.current_hash_view()
    &&& post.instances_seq() == pre.instances_seq()
    &&& post.running_seq() == pre.running_seq()
    &&& post.checking_new_instances() == pre.checking_new_instances()
    &&& post.new_instances_seq() == pre.new_instances_seq()
    &&& post.stale_seq() == pre.stale_seq()
    &&& post.rollout_opt() == pre.rollout_opt()
}

/// An instance record as written once its create command succeeded.
pub open spec fn as_running(p: InstanceView) -> InstanceView {
    InstanceView { status: "running"@, ..p }
}

/// The rollout record that starts a rollout of spec `name` towards hash `hash`.
pub open spec fn fresh_rollout(name: Seq<char>, hash: Seq<char>) -> RolloutView {
    RolloutView { spec_name: name, new_hash: hash, phase: "creating"@, created_count: 0 }
}

/// Start: the configured nodes are registered, the instances of specs that are no longer
/// desired are grouped by spec name, and garbage collection begins with the first group.
pub open spec fn start_effect(pre: Reconciler, post: Reconciler, r: Step) -> bool {
    &&& r is Continue
    &&& post.stage_now() == Stage::GcNext
    &&& post.group_position() == 0
    &&& post.member_position() == 0
    &&& post.db_view().nodes == register_all(pre.db_view().nodes, pre.nodes_view())
    &&& same_work_record(pre, post)
    &&& are_orphan_groups(
        pre.db_view().instances,
        spec_names(pre.specs_view()),
        group_names_of(post.groups_seq()),
        group_members_of(post.groups_seq()),
    )
    &&& post.actions_view() == pre.actions_view()
}

/// Garbage collection, next orphan: announce the group when starting it, then ask for the
/// delete command of the orphan; past the last group, go on to the orphaned rollouts.
pub open spec fn gc_next_effect(pre: Reconciler, post: Reconciler, r: Step) -> bool {
    &&& post.db_view() == pre.db_view()
    &&& post.groups_seq() == pre.groups_seq()
    &&& if pre.group_position() < pre.groups_seq().len() {
        let grp = pre.groups_seq()[pre.group_position() as int];
        let inst = grp.instances@[pre.member_position() as int];
        let cmd = spec_substitute(pre.delete_template_view(), inst.id@, inst.node@);
        let head = if pre.member_position() == 0 {
            pre.actions_view().push(
                "gc: spec '"@ + grp.spec_name@ + "' removed, cleaning up "@ + spec_decimal(grp.instances@.len())
                    + " orphaned instances"@,
            )
        } else {
            pre.actions_view()
        };
        &&& r matches Step::Run(c) && c@ == cmd
        &&& post.stage_now() == Stage::GcWait
        &&& post.group_position() == pre.group_position()
        &&& post.member_position() == pre.member_position()
        &&& post.actions_view() == head.push("gc: delete orphan "@ + inst.id@ + " -> "@ + cmd)
    } else {
        &&& r is Continue
        &&& post.stage_now() == Stage::GcRollouts
        &&& post.actions_view() == pre.actions_view()
    }
}

/// Garbage collection, the delete command ran: the orphan's record is deleted whatever
/// the outcome (an error is logged), and the position moves to the next orphan.
pub open spec fn gc_wait_effect(pre: Reconciler, post: Reconciler, outcome: Result<bool, String>, r: Step) -> bool {
    let grp = pre.groups_seq()[pre.group_position() as int];
    let inst = grp.instances@[pre.member_position() as int];
    &&& r is Continue
    &&& post.stage_now() == Stage::GcNext
    &&& post.groups_seq() == pre.groups_seq()
    &&& post.db_view().instances == without_instance(pre.db_view().instances, inst.id@)
    &&& post.db_view().nodes == pre.db_view().nodes
    &&& post.db_view().rollouts == pre.db_view().rollouts
    &&& if pre.member_position() + 1 == grp.instances@.len() {
        post.group_position() == pre.group_position() + 1 && post.member_position() == 0
    } else {
        post.group_position() == pre.group_position() && post.member_position() == pre.member_position() + 1
    }
    &&& post.actions_view() == match outcome {
        Err(e) => pre.actions_view().push("gc: delete error for "@ + inst.id@ + ": "@ + e@),
        Ok(_) => pre.actions_view(),
    }
}

/// Garbage collection, rollouts: the rollout of each removed spec is deleted, with a line
/// for each, and the pass turns to the first desired spec.
pub open spec fn gc_rollouts_effect(pre: Reconciler, post: Reconciler, r: Step) -> bool {
    let names = group_names_of(pre.groups_seq());
    &&& r is Continue
    &&& post.stage_now() == Stage::SpecStart
    &&& post.spec_position() == 0
    &&& post.db_view().instances == pre.db_view().instances
    &&& post.db_view().nodes == pre.db_view().nodes
    &&& post.db_view().rollouts == rollouts_without(pre.db_view().rollouts, names)
    &&& post.actions_view() == pre.actions_view() + rollout_cleanup_lines(pre.db_view().rollouts, names)
}

/// Next spec: past the last one the pass is finished. A spec whose hash could not be
/// computed is logged and skipped. Otherwise its recorded instances are read, and the
/// health of the live ones is checked next.
pub open spec fn spec_start_effect(pre: Reconciler, post: Reconciler, r: Step) -> bool {
    &&& post.db_view() == pre.db_view()
    &&& if pre.spec_position() >= pre.specs_view().len() {
        &&& r is Finished
        &&& post.stage_now() == Stage::Done
        &&& post.actions_view() == pre.actions_view()
    } else {
        let entry = current_entry(pre);
        match entry.hash {
            Err(e) => {
                &&& post.moved_on(pre, r)
                &&& post.actions_view() == pre.actions_view().push(
                    "hash error for '"@ + entry.spec.name@ + "': "@ + e@,
                )
            },
            Ok(h) => {
                &&& r is Continue
                &&& post.stage_now() == Stage::HealthNext
                &&& post.spec_position() == pre.spec_position()
                &&& post.current_hash_view() == h@
                &&& iviews(post.instances_seq()) == instances_of(pre.db_view().instances, entry.spec.name@)
                &&& iviews(post.running_seq()) == iviews(post.instances_seq()).filter(live())
                &&& post.healthy_flags().len() == 0
                &&& !post.checking_new_instances()
                &&& post.probe_position() == 0
                &&& post.actions_view() == pre.actions_view()
            },
        }
    }
}

/// The list of instances whose health is being checked.
pub open spec fn probed_list(rec: Reconciler) -> Seq<crate::spec::Instance> {
    if rec.checking_new_instances() {
        rec.new_instances_seq()
    } else {
        rec.running_seq()
    }
}

/// Health, next instance: with a health template, ask for the instance's health command;
/// without one, its recorded status decides at once. After the last instance, go on to
/// the rollout (when checking the rollout's new instances) or to the replica count.
pub open spec fn health_next_effect(pre: Reconciler, post: Reconciler, r: Step) -> bool {
    let list = probed_list(pre);
    &&& post.db_view() == pre.db_view()
    &&& post.actions_view() == pre.actions_view()
    &&& same_spec_work(pre, post)
    &&& if pre.probe_position() < list.len() {
        let inst = list[pre.probe_position() as int];
        if pre.health_template_view().len() > 0 {
            &&& r matches Step::Run(c) && c@ == spec_substitute(pre.health_template_view(), inst.id@, inst.node@)
            &&& post.stage_now() == Stage::HealthWait
            &&& post.probe_position() == pre.probe_position()
            &&& post.healthy_flags() == pre.healthy_flags()
            &&& post.healthy_new_flags() == pre.healthy_new_flags()
        } else {
            let flag = inst.status@ == "running"@;
            &&& r is Continue
            &&& post.stage_now() == Stage::HealthNext
            &&& post.probe_position() == pre.probe_position() + 1
            &&& post.healthy_flags() == if pre.checking_new_instances() {
                pre.healthy_flags()
            } else {
                pre.healthy_flags().push(flag)
            }
            &&& post.healthy_new_flags() == if pre.checking_new_instances() {
                pre.healthy_new_flags().push(flag)
            } else {
                pre.healthy_new_flags()
            }
        }
    } else {
        &&& r is Continue
        &&& post.stage_now() == if pre.checking_new_instances() {
            Stage::RolloutPhase
        } else {
            Stage::AfterHealth
        }
        &&& post.probe_position() == pre.probe_position()
        &&& post.healthy_flags() == pre.healthy_flags()
        &&& post.healthy_new_flags() == pre.healthy_new_flags()
    }
}

/// Health, the command ran: the instance counts as healthy exactly when the command
/// succeeded; the next instance is checked next.
pub open spec fn health_wait_effect(pre: Reconciler, post: Reconciler, outcome: Result<bool, String>, r: Step) -> bool {
    let flag = outcome == Ok::<bool, String>(true);
    &&& r is Continue
    &&& post.stage_now() == Stage::HealthNext
    &&& post.db_view() == pre.db_view()
    &&& post.actions_view() == pre.actions_view()
    &&& same_spec_work(pre, post)
    &&& post.probe_position() == pre.probe_position() + 1
    &&& post.healthy_flags() == if pre.checking_new_instances() {
        pre.healthy_flags()
    } else {
        pre.healthy_flags().push(flag)
    }
    &&& post.healthy_new_flags() == if pre.checking_new_instances() {
        pre.healthy_new_flags().push(flag)
    } else {
        pre.healthy_new_flags()
    }
}

/// After the health checks. When instances built from an older spec remain, the rollout
/// is started (none recorded), restarted (recorded for another hash), or continued by
/// checking the health of the instances built from its hash. Otherwise a finished
/// rollout record is removed and the healthy count is compared with the desired replicas:
/// too few start the creates, too many the deletes of the excess (unhealthy first), and
/// an equal count is logged and the spec is done.
pub open spec fn after_health_effect(pre: Reconciler, post: Reconciler, r: Step) -> bool {
    let name = current_name(pre);
    let hash = pre.current_hash_view();
    let stale_now = iviews(pre.instances_seq()).filter(stale(hash));
    let rs = pre.db_view().rollouts;
    &&& post.db_view().instances == pre.db_view().instances
    &&& post.db_view().nodes == pre.db_view().nodes
    &&& iviews(post.stale_seq()) == stale_now
    &&& if stale_now.len() > 0 {
        match rollout_of(rs, name) {
            Some(ro) => if ro.new_hash != hash {
                &&& post.db_view().rollouts == put_rollout(without_rollout(rs, name), fresh_rollout(name, hash))
                &&& post.actions_view() == pre.actions_view().push(
                    "spec '"@ + name + "' changed during rollout, restarting"@,
                )
                &&& post.moved_on(pre, r)
            } else {
                &&& r is Continue
                &&& post.stage_now() == Stage::HealthNext
                &&& post.db_view().rollouts == rs
                &&& post.actions_view() == pre.actions_view()
                &&& post.spec_position() == pre.spec_position()
                &&& post.instances_seq() == pre.instances_seq()
                &&& post.current_hash_view() == hash
                &&& iviews(post.new_instances_seq()) == iviews(pre.instances_seq()).filter(built_from(ro.new_hash))
                &&& post.healthy_new_flags().len() == 0
                &&& post.probe_position() == 0
                &&& post.checking_new_instances()
                &&& post.rollout_opt() matches Some(x) && x@ == ro
            },
            None => {
                &&& post.db_view().rollouts == put_rollout(rs, fresh_rollout(name, hash))
                &&& post.actions_view() == pre.actions_view().push(
                    "spec '"@ + name + "' changed ("@ + spec_decimal(stale_now.len()) + " old instances), starting rollout"@,
                )
                &&& post.moved_on(pre, r)
            },
        }
    } else {
        let current = count_true(pre.healthy_flags());
        let desired = current_entry(pre).spec.replicas;
        &&& post.db_view().rollouts == (if rollout_of(rs, name) matches Some(ro) && ro.phase == "complete"@ {
            without_rollout(rs, name)
        } else {
            rs
        })
        &&& current < desired ==> {
            &&& post.actions_view() == pre.actions_view().push(
                "spec '"@ + name + "': "@ + spec_decimal(current) + " healthy, need "@ + spec_decimal(
                    (desired - current) as nat,
                ) + " more"@,
            )
            &&& r is Continue
            &&& post.stage_now() == Stage::CreateNext
            &&& post.spec_position() == pre.spec_position()
            &&& post.current_hash_view() == hash
            &&& post.creates_remaining() == desired - current
            &&& post.next_instance_index() == pre.instances_seq().len() as u32
        }
        &&& current > desired ==> {
            &&& post.actions_view() == pre.actions_view().push(
                "spec '"@ + name + "': "@ + spec_decimal(current) + " running, "@ + spec_decimal(
                    (current - desired) as nat,
                ) + " excess"@,
            )
            &&& r is Continue
            &&& post.stage_now() == Stage::DeleteNext
            &&& post.spec_position() == pre.spec_position()
            &&& iviews(post.doomed_seq()) == excess_choice(
                iviews(pre.running_seq()),
                pre.healthy_flags(),
                (current - desired) as nat,
            )
            &&& post.doomed_position() == 0
        }
        &&& current == desired ==> {
            &&& post.actions_view() == pre.actions_view().push(
                "spec '"@ + name + "': "@ + spec_decimal(current) + " replicas healthy (no change)"@,
            )
            &&& post.moved_on(pre, r)
        }
    }
}

/// Creates, next one: when none is left the spec is done; with no node available the
/// scheduling error is logged and the spec is done; otherwise the next instance is placed
/// on the first least-loaded available node and its create command is asked for.
pub open spec fn create_next_effect(pre: Reconciler, post: Reconciler, now: u64, r: Step) -> bool {
    let avail = available_nodes(pre.db_view(), pre.nodes_view());
    &&& post.db_view() == pre.db_view()
    &&& if pre.creates_remaining() == 0 {
        post.moved_on(pre, r) && post.actions_view() == pre.actions_view()
    } else if avail.len() == 0 {
        post.moved_on(pre, r) && post.actions_view() == pre.actions_view().push(
            "schedule error: "@ + "no available nodes"@,
        )
    } else {
        let p = post.pending_opt()->0;
        let cmd = spec_substitute(pre.create_template_view(), p.id@, p.node@);
        &&& post.pending_opt() is Some
        &&& is_new_placement(
            pre.db_view(),
            pre.nodes_view(),
            current_name(pre),
            pre.current_hash_view(),
            pre.next_instance_index(),
            now,
            p@,
        )
        &&& r matches Step::Run(c) && c@ == cmd
        &&& post.actions_view() == pre.actions_view().push("create: "@ + p.id@ + " on "@ + p.node@ + " -> "@ + cmd)
        &&& post.stage_now() == Stage::CreateWait
        &&& post.spec_position() == pre.spec_position()
        &&& post.current_hash_view() == pre.current_hash_view()
        &&& post.creates_remaining() == pre.creates_remaining()
        &&& post.next_instance_index() == pre.next_instance_index()
    }
}

/// Creates, the command ran: on success the instance is recorded as running; a failure or
/// an error is logged. Either way one create fewer is left and the next index is used.
pub open spec fn create_wait_effect(pre: Reconciler, post: Reconciler, outcome: Result<bool, String>, r: Step) -> bool {
    &&& r is Continue
    &&& post.stage_now() == Stage::CreateNext
    &&& post.pending_opt() is None
    &&& post.spec_position() == pre.spec_position()
    &&& post.current_hash_view() == pre.current_hash_view()
    &&& post.creates_remaining() == pre.creates_remaining() - 1
    &&& post.next_instance_index() == if pre.next_instance_index() == u32::MAX {
        0
    } else {
        pre.next_instance_index() + 1
    }
    &&& post.db_view().nodes == pre.db_view().nodes
    &&& post.db_view().rollouts == pre.db_view().rollouts
    &&& match pre.pending_opt() {
        Some(p) => match outcome {
            Ok(true) => {
                &&& post.db_view().instances == put_instance(pre.db_view().instances, as_running(p@))
                &&& post.actions_view() == pre.actions_view().push("created: "@ + p.id@)
            },
            Ok(false) => {
                &&& post.db_view().instances == pre.db_view().instances
                &&& post.actions_view() == pre.actions_view().push("create failed: "@ + p.id@)
            },
            Err(e) => {
                &&& post.db_view().instances == pre.db_view().instances
                &&& post.actions_view() == pre.actions_view().push("create error: "@ + e@)
            },
        },
        None => post.db_view().instances == pre.db_view().instances && post.actions_view() == pre.actions_view(),
    }
}

/// Deletes, next one: when all excess instances are dealt with the spec is done;
/// otherwise the next one is marked as being deleted and its delete command is asked for.
pub open spec fn delete_next_effect(pre: Reconciler, post: Reconciler, r: Step) -> bool {
    if pre.doomed_position() >= pre.doomed_seq().len() {
        &&& post.moved_on(pre, r)
        &&& post.db_view() == pre.db_view()
        &&& post.actions_view() == pre.actions_view()
    } else {
        let inst = pre.doomed_seq()[pre.doomed_position() as int];
        let cmd = spec_substitute(pre.delete_template_view(), inst.id@, inst.node@);
        &&& r matches Step::Run(c) && c@ == cmd
        &&& post.stage_now() == Stage::DeleteWait
        &&& post.spec_position() == pre.spec_position()
        &&& post.doomed_seq() == pre.doomed_seq()
        &&& post.doomed_position() == pre.doomed_position()
        &&& post.db_view().instances == set_instance_status(pre.db_view().instances, inst.id@, "deleting"@)
        &&& post.db_view().nodes == pre.db_view().nodes
        &&& post.db_view().rollouts == pre.db_view().rollouts
        &&& post.actions_view() == pre.actions_view().push("delete: "@ + inst.id@ + " on "@ + inst.node@ + " -> "@ + cmd)
    }
}

/// Deletes, the command ran: the instance's record is deleted whatever the outcome (an
/// error is logged), and the next excess instance comes next.
pub open spec fn delete_wait_effect(pre: Reconciler, post: Reconciler, outcome: Result<bool, String>, r: Step) -> bool {
    let inst = pre.doomed_seq()[pre.doomed_position() as int];
    &&& r is Continue
    &&& post.stage_now() == Stage::DeleteNext
    &&& post.spec_position() == pre.spec_position()
    &&& post.doomed_seq() == pre.doomed_seq()
    &&& post.doomed_position() == pre.doomed_position() + 1
    &&& post.db_view().instances == without_instance(pre.db_view().instances, inst.id@)
    &&& post.db_view().nodes == pre.db_view().nodes
    &&& post.db_view().rollouts == pre.db_view().rollouts
    &&& post.actions_view() == match outcome {
        Err(e) => pre.actions_view().push("delete command error for "@ + inst.id@ + ": "@ + e@),
        Ok(_) => pre.actions_view(),
    }
}

/// Rollout, one move per pass. `creating`: ask for the next new instance until the
/// desired replicas were created, then move to `waiting_healthy`. `waiting_healthy`: move
/// to `draining` once at least the desired replicas of the new instances are healthy.
/// `draining`: ask for the delete command of the first old instance, marking it as being
/// deleted; with none left, move to `complete`. `complete`: remove the rollout record.
pub open spec fn rollout_phase_effect(pre: Reconciler, post: Reconciler, now: u64, r: Step) -> bool {
    &&& post.db_view().nodes == pre.db_view().nodes
    &&& match pre.rollout_opt() {
        None => post.moved_on(pre, r) && post.db_view() == pre.db_view() && post.actions_view() == pre.actions_view(),
        Some(ro) => {
            let spec = current_entry(pre).spec;
            let name = spec.name@;
            let replicas = spec.replicas;
            let rs = pre.db_view().rollouts;
            let insts = pre.db_view().instances;
            let a0 = pre.actions_view();
            if ro.phase@ == "creating"@ {
                if ro.created_count < replicas {
                    if available_nodes(pre.db_view(), pre.nodes_view()).len() == 0 {
                        &&& post.moved_on(pre, r)
                        &&& post.db_view() == pre.db_view()
                        &&& post.actions_view() == a0.push("schedule error: "@ + "no available nodes"@)
                    } else {
                        let p = post.pending_opt()->0;
                        let cmd = spec_substitute(pre.create_template_view(), p.id@, p.node@);
                        &&& post.pending_opt() is Some
                        &&& is_new_placement(
                            pre.db_view(),
                            pre.nodes_view(),
                            name,
                            ro.new_hash@,
                            pre.instances_seq().len() as u32,
                            now,
                            p@,
                        )
                        &&& r matches Step::Run(c) && c@ == cmd
                        &&& post.stage_now() == Stage::RolloutCreateWait
                        &&& post.spec_position() == pre.spec_position()
                        &&& post.rollout_opt() == pre.rollout_opt()
                        &&& post.db_view() == pre.db_view()
                        &&& post.actions_view() == a0.push(
                            "rollout: create "@ + spec_decimal((ro.created_count + 1) as nat) + "/"@ + spec_decimal(
                                replicas as nat,
                            ) + " -> "@ + p.id@ + " on "@ + p.node@,
                        )
                    }
                } else {
                    &&& post.db_view().rollouts == set_rollout_phase(rs, name, "waiting_healthy"@)
                    &&& post.db_view().instances == insts
                    &&& post.actions_view() == a0.push(
                        "rollout: "@ + spec_decimal(ro.created_count as nat) + " instances created, waiting for healthy"@,
                    )
                    &&& post.moved_on(pre, r)
                }
            } else if ro.phase@ == "waiting_healthy"@ {
                let ready = count_true(pre.healthy_new_flags());
                &&& post.moved_on(pre, r)
                &&& post.db_view().instances == insts
                &&& if ready >= replicas {
                    &&& post.db_view().rollouts == set_rollout_phase(rs, name, "draining"@)
                    &&& post.actions_view() == a0.push(
                        "rollout: "@ + spec_decimal(ready) + " healthy, starting drain of old instances"@,
                    )
                } else {
                    &&& post.db_view().rollouts == rs
                    &&& post.actions_view() == a0.push(
                        "rollout: waiting ("@ + spec_decimal(ready) + "/"@ + spec_decimal(replicas as nat) + " healthy)"@,
                    )
                }
            } else if ro.phase@ == "draining"@ {
                if pre.stale_seq().len() > 0 {
                    let inst = pre.stale_seq()[0];
                    let cmd = spec_substitute(pre.delete_template_view(), inst.id@, inst.node@);
                    &&& r matches Step::Run(c) && c@ == cmd
                    &&& post.stage_now() == Stage::DrainWait
                    &&& post.spec_position() == pre.spec_position()
                    &&& post.stale_seq() == pre.stale_seq()
                    &&& post.db_view().instances == set_instance_status(insts, inst.id@, "deleting"@)
                    &&& post.db_view().rollouts == rs
                    &&& post.actions_view() == a0.push(
                        "rollout: drain old "@ + inst.id@ + " on "@ + inst.node@ + " -> "@ + cmd,
                    )
                } else {
                    &&& post.db_view().rollouts == set_rollout_phase(rs, name, "complete"@)
                    &&& post.db_view().instances == insts
                    &&& post.actions_view() == a0.push("rollout: all old instances drained"@)
                    &&& post.moved_on(pre, r)
                }
            } else if ro.phase@ == "complete"@ {
                &&& post.db_view().rollouts == without_rollout(rs, name)
                &&& post.db_view().instances == insts
                &&& post.actions_view() == a0.push("rollout complete for '"@ + name + "'"@)
                &&& post.moved_on(pre, r)
            } else {
                &&& post.moved_on(pre, r)
                &&& post.db_view() == pre.db_view()
                &&& post.actions_view() == a0
            }
        },
    }
}

/// Rollout, the create command ran: unless it reported an error (which is logged), the
/// new instance is recorded as running and the rollout's created count goes up by one.
/// The spec is done for this pass.
pub open spec fn rollout_create_wait_effect(
    pre: Reconciler,
    post: Reconciler,
    outcome: Result<bool, String>,
    r: Step,
) -> bool {
    &&& post.moved_on(pre, r)
    &&& post.db_view().nodes == pre.db_view().nodes
    &&& match pre.pending_opt() {
        Some(p) => match outcome {
            Err(e) => {
                &&& post.db_view() == pre.db_view()
                &&& post.actions_view() == pre.actions_view().push("create error: "@ + e@)
            },
            Ok(_) => {
                &&& post.db_view().instances == put_instance(pre.db_view().instances, as_running(p@))
                &&& post.db_view().rollouts == bump_rollout_count(pre.db_view().rollouts, current_name(pre))
                &&& post.actions_view() == pre.actions_view()
            },
        },
        None => post.db_view() == pre.db_view() && post.actions_view() == pre.actions_view(),
    }
}

/// Rollout, the drain command ran: the old instance's record is deleted whatever the
/// outcome (an error is logged). The spec is done for this pass.
pub open spec fn drain_wait_effect(pre: Reconciler, post: Reconciler, outcome: Result<bool, String>, r: Step) -> bool {
    let inst = pre.stale_seq()[0];
    &&& post.moved_on(pre, r)
    &&& post.db_view().instances == without_instance(pre.db_view().instances, inst.id@)
    &&& post.db_view().nodes == pre.db_view().nodes
    &&& post.db_view().rollouts == pre.db_view().rollouts
    &&& post.actions_view() == match outcome {
        Err(e) => pre.actions_view().push("delete error: "@ + e@),
        Ok(_) => pre.actions_view(),
    }
}

/// The phase a rollout moves to from `phase`: creating, waiting_healthy, draining, complete.
pub open spec fn next_phase(phase: Seq<char>) -> Seq<char> {
    if phase == "creating"@ {
        "waiting_healthy"@
    } else if phase == "waiting_healthy"@ {
        "draining"@
    } else if phase == "draining"@ {
        "complete"@
    } else {
        phase
    }
}

/// How one step may change a spec's rollout record from `before` to `after`: not at all; a
/// rollout starts at `creating` with nothing created, where there was none or the one
/// recorded was for another hash; while `creating`, one more new instance is counted; the
/// phase moves on to the next; or the record goes, once `complete` or when the spec is no
/// longer `desired`.
pub open spec fn rollout_moves(before: Option<RolloutView>, after: Option<RolloutView>, desired: bool) -> bool {
    ||| after == before
    ||| (after matches Some(y) && y.phase == "creating"@ && y.created_count == 0 && (before matches Some(x)
        ==> x.new_hash != y.new_hash))
    ||| (before matches Some(x) && x.phase == "creating"@ && after == Some(
        RolloutView { created_count: (x.created_count + 1) as u32, ..x },
    ))
    ||| (before matches Some(x) && after == Some(RolloutView { phase: next_phase(x.phase), ..x }))
    ||| (after is None && (before matches Some(x) && (x.phase == "complete"@ || !desired)))
}

/// What one step does, by the stage the pass stands in; `outcome` is the result of the
/// command the previous step asked for, and `now` the time recorded on a new instance.
pub open spec fn step_effect(
    pre: Reconciler,
    post: Reconciler,
    outcome: Option<Result<bool, String>>,
    now: u64,
    r: Step,
) -> bool {
    match pre.stage_now() {
        Stage::Start => start_effect(pre, post, r),
        Stage::GcNext => gc_next_effect(pre, post, r),
        Stage::GcWait => outcome matches Some(res) && gc_wait_effect(pre, post, res, r),
        Stage::GcRollouts => gc_rollouts_effect(pre, post, r),
        Stage::SpecStart => spec_start_effect(pre, post, r),
        Stage::HealthNext => health_next_effect(pre, post, r),
        Stage::HealthWait => outcome matches Some(res) && health_wait_effect(pre, post, res, r),
        Stage::AfterHealth => after_health_effect(pre, post, r),
        Stage::CreateNext => create_next_effect(pre, post, now, r),
        Stage::CreateWait => outcome matches Some(res) && create_wait_effect(pre, post, res, r),
        Stage::DeleteNext => delete_next_effect(pre, post, r),
        Stage::DeleteWait => outcome matches Some(res) && delete_wait_effect(pre, post, res, r),
        Stage::RolloutPhase => rollout_phase_effect(pre, post, now, r),
        Stage::RolloutCreateWait => outcome matches Some(res) && rollout_create_wait_effect(pre, post, res, r),
        Stage::DrainWait => outcome matches Some(res) && drain_wait_effect(pre, post, res, r),
        Stage::Done => r is Finished && post == pre,
    }
}

/// `states` is a run of a pass: each state follows from the one before by a step, the
/// `i`-th one handed `outcomes[i]` (a result exactly when the pass waits for one), made at
/// time `nows[i]` and returning `steps[i]`.
pub open spec fn is_run(
    states: Seq<Reconciler>,
    outcomes: Seq<Option<Result<bool, String>>>,
    steps: Seq<Step>,
    nows: Seq<u64>,
) -> bool {
    &&& states.len() == steps.len() + 1
    &&& outcomes.len() == steps.len()
    &&& nows.len() == steps.len()
    &&& forall|i: int|
        #![trigger steps[i]]
        0 <= i < steps.len() ==> {
            &&& (outcomes[i] is Some <==> states[i].awaiting())
            &&& step_post(states[i], states[i + 1], steps[i])
            &&& step_effect(states[i], states[i + 1], outcomes[i], nows[i], steps[i])
        }
}

/// Every command run in the course of a run succeeded.
pub open spec fn all_succeeded(outcomes: Seq<Option<Result<bool, String>>>) -> bool {
    forall|i: int| 0 <= i < outcomes.len() ==> (#[trigger] outcomes[i] matches Some(o) ==> o == Ok::<bool, String>(true))
}

/// A running instance of spec `name`.
pub open spec fn running_of(name: Seq<char>) -> spec_fn(InstanceView) -> bool {
    |x: InstanceView| x.spec_name == name && x.status == "running"@
}

/// How many instances of spec `name` are recorded as running.
pub open spec fn running_count(s: Seq<InstanceView>, name: Seq<char>) -> nat {
    s.filter(running_of(name)).len()
}

/// Some recorded instance is called `id`.
pub open spec fn id_recorded(s: Seq<InstanceView>, id: Seq<char>) -> bool {
    exists|k: int| 0 <= k < s.len() && s[k].id == id
}

proof fn lemma_without_absent(s: Seq<InstanceView>, id: Seq<char>)
    requires
        !id_recorded(s, id),
    ensures
        without_instance(s, id) == s,
    decreases s.len(),
{
    reveal(Seq::filter);
    if s.len() > 0 {
        assert(!id_recorded(s.drop_last(), id)) by {
            if id_recorded(s.drop_last(), id) {
                let k = choose|k: int| 0 <= k < s.drop_last().len() && s.drop_last()[k].id == id;
                assert(s[k].id == id);
            }
        }
        lemma_without_absent(s.drop_last(), id);
        assert(s[s.len() - 1].id != id);
        assert(s.drop_last().push(s.last()) =~= s);
    }
}

/// The creates of spec `name` are under way at `si`: they began with `c0` instances to
/// create, the first to be named after index `n0`, with `rc0` running instances recorded;
/// those created so far are recorded as running, and the names still to come are unused.
spec fn creating(si: Reconciler, name: Seq<char>, nodes: Seq<Seq<char>>, c0: int, n0: int, rc0: int) -> bool {
    let done = c0 - si.creates_remaining();
    &&& si.stage_now() == Stage::CreateNext || si.stage_now() == Stage::CreateWait
    &&& current_name(si) == name
    &&& si.nodes_view() == nodes
    &&& si.creates_remaining() <= c0
    &&& si.next_instance_index() == n0 + done
    &&& running_count(si.db_view().instances, name) == rc0 + done
    &&& forall|j: int|
        done <= j < c0 ==> !id_recorded(si.db_view().instances, #[trigger] instance_name(name, (n0 + j) as u32))
    &&& si.stage_now() == Stage::CreateWait ==> {
        &&& si.creates_remaining() >= 1
        &&& si.pending_opt() matches Some(p) && p@.id == instance_name(name, si.next_instance_index())
            && p@.spec_name == name
    }
}

proof fn lemma_create_step(
    pre: Reconciler,
    post: Reconciler,
    outcome: Option<Result<bool, String>>,
    now: u64,
    r: Step,
    name: Seq<char>,
    nodes: Seq<Seq<char>>,
    c0: int,
    n0: int,
    rc0: int,
)
    requires
        creating(pre, name, nodes, c0, n0, rc0),
        step_post(pre, post, r),
        step_effect(pre, post, outcome, now, r),
        outcome is Some <==> pre.awaiting(),
        outcome matches Some(o) ==> o == Ok::<bool, String>(true),
        nodes.len() > 0,
        0 <= n0,
        n0 + c0 <= u32::MAX,
    ensures
        creating(post, name, nodes, c0, n0, rc0) || (post.stage_now() == Stage::SpecStart && running_count(
            post.db_view().instances,
            name,
        ) == rc0 + c0),
{
    if pre.stage_now() == Stage::CreateWait {
        assert(outcome == Some(Ok::<bool, String>(true)));
        assert(current_name(post) == current_name(pre));
        let p = pre.pending_opt()->0;
        let before = pre.db_view().instances;
        let done = c0 - pre.creates_remaining();
        assert(!id_recorded(before, instance_name(name, (n0 + done) as u32)));
        lemma_without_absent(before, p@.id);
        before.lemma_filter_push(as_running(p@), running_of(name));
        let after = post.db_view().instances;
        assert(after == before.push(as_running(p@)));
        assert forall|j: int| done + 1 <= j < c0 implies !id_recorded(after, #[trigger] instance_name(name, (n0 + j) as u32)) by {
            assert(!id_recorded(before, instance_name(name, (n0 + j) as u32)));
            if id_recorded(after, instance_name(name, (n0 + j) as u32)) {
                let w = choose|w: int| 0 <= w < after.len() && after[w].id == instance_name(name, (n0 + j) as u32);
                if w < before.len() {
                    assert(before[w] == after[w]);
                } else {
                    lemma_instance_name_injective(name, (n0 + j) as u32, (n0 + done) as u32);
                }
            }
        }
    } else if pre.creates_remaining() > 0 {
        assert(crate::reconciler::available_nodes(pre.db_view(), pre.nodes_view()).len() > 0);
        assert(current_name(post) == current_name(pre));
    }
}

proof fn lemma_create_progress(
    states: Seq<Reconciler>,
    outcomes: Seq<Option<Result<bool, String>>>,
    steps: Seq<Step>,
    nows: Seq<u64>,
    i: int,
)
    requires
        is_run(states, outcomes, steps, nows),
        all_succeeded(outcomes),
        states[0].stage_now() == Stage::CreateNext,
        states[0].nodes_view().len() > 0,
        states[0].next_instance_index() + states[0].creates_remaining() <= u32::MAX,
        forall|j: int|
            0 <= j < states[0].creates_remaining() ==> !id_recorded(
                states[0].db_view().instances,
                #[trigger] instance_name(current_name(states[0]), (states[0].next_instance_index() + j) as u32),
            ),
        forall|k: int| 0 <= k < states.len() - 1 ==> states[k].stage_now() != Stage::SpecStart,
        0 <= i < states.len(),
    ensures
        ({
            let s0 = states[0];
            let name = current_name(s0);
            let rc0 = running_count(s0.db_view().instances, name) as int;
            let c0 = s0.creates_remaining() as int;
            ||| creating(states[i], name, s0.nodes_view(), c0, s0.next_instance_index() as int, rc0)
            ||| (states[i].stage_now() == Stage::SpecStart && running_count(states[i].db_view().instances, name) == rc0 + c0)
        }),
    decreases i,
{
    if i > 0 {
        lemma_create_progress(states, outcomes, steps, nows, i - 1);
        let k = i - 1;
        let s0 = states[0];
        let r = steps[k];
        assert(states[k + 1] == states[i]);
        assert(step_post(states[k], states[i], r));
        assert(step_effect(states[k], states[i], outcomes[k], nows[k], r));
        assert(outcomes[k] matches Some(o) ==> o == Ok::<bool, String>(true));
        assert(states[k].stage_now() != Stage::SpecStart);
        lemma_create_step(
            states[k],
            states[i],
            outcomes[k],
            nows[k],
            r,
            current_name(s0),
            s0.nodes_view(),
            s0.creates_remaining() as int,
            s0.next_instance_index() as int,
            running_count(s0.db_view().instances, current_name(s0)) as int,
        );
    }
}

/// When every command succeeds, the creates of a spec add exactly the missing
/// instances: from the step that begins them to the step where the pass moves on to the
/// next spec, the spec gains as many running instances as were to be created. This holds
/// where some node is configured, the indexes of the new instances fit in `u32`, and no
/// recorded instance already has one of the names they get.
pub proof fn law_creates_fill_up(
    states: Seq<Reconciler>,
    outcomes: Seq<Option<Result<bool, String>>>,
    steps: Seq<Step>,
    nows: Seq<u64>,
)
    requires
        is_run(states, outcomes, steps, nows),
        all_succeeded(outcomes),
        states[0].stage_now() == Stage::CreateNext,
        states[0].nodes_view().len() > 0,
        states[0].next_instance_index() + states[0].creates_remaining() <= u32::MAX,
        forall|j: int|
            0 <= j < states[0].creates_remaining() ==> !id_recorded(
                states[0].db_view().instances,
                #[trigger] instance_name(current_name(states[0]), (states[0].next_instance_index() + j) as u32),
            ),
        states.last().stage_now() == Stage::SpecStart,
        forall|k: int| 0 <= k < states.len() - 1 ==> states[k].stage_now() != Stage::SpecStart,
    ensures
        running_count(states.last().db_view().instances, current_name(states[0])) == running_count(
            states[0].db_view().instances,
            current_name(states[0]),
        ) + states[0].creates_remaining(),
{
    lemma_create_progress(states, outcomes, steps, nows, states.len() - 1);
}

/// The ids of a sequence of instances, in order.
pub open spec fn ids_of(v: Seq<crate::spec::Instance>) -> Seq<Seq<char>> {
    v.map_values(|x: crate::spec::Instance| x.id@)
}

/// The instance's id is not among `ids`.
pub open spec fn id_not_in(ids: Seq<Seq<char>>) -> spec_fn(InstanceView) -> bool {
    |x: InstanceView| !ids.contains(x.id)
}

/// The instances of `s` whose ids are not among `ids`, in order.
pub open spec fn without_ids(s: Seq<InstanceView>, ids: Seq<Seq<char>>) -> Seq<InstanceView> {
    s.filter(id_not_in(ids))
}

proof fn lemma_filter_filter(s: Seq<InstanceView>, p: spec_fn(InstanceView) -> bool, q: spec_fn(InstanceView) -> bool, r: spec_fn(InstanceView) -> bool)
    requires
        forall|x: InstanceView| #[trigger] r(x) == (p(x) && q(x)),
    ensures
        s.filter(p).filter(q) == s.filter(r),
    decreases s.len(),
{
    reveal(Seq::filter);
    if s.len() > 0 {
        lemma_filter_filter(s.drop_last(), p, q, r);
        if p(s.last()) {
            s.drop_last().filter(p).lemma_filter_push(s.last(), q);
        }
    }
}

proof fn lemma_without_marked(s: Seq<InstanceView>, id: Seq<char>, status: Seq<char>)
    ensures
        without_instance(set_instance_status(s, id, status), id) == without_instance(s, id),
    decreases s.len(),
{
    reveal(Seq::filter);
    if s.len() > 0 {
        lemma_without_marked(s.drop_last(), id, status);
        assert(set_instance_status(s, id, status).drop_last() =~= set_instance_status(s.drop_last(), id, status));
    }
}

proof fn lemma_without_one_more(s: Seq<InstanceView>, ids: Seq<Seq<char>>, id: Seq<char>)
    ensures
        without_instance(without_ids(s, ids), id) == without_ids(s, ids.push(id)),
{
    assert forall|x: InstanceView| #[trigger] id_not_in(ids.push(id))(x) == (id_not_in(ids)(x)
        && crate::state::instance_id_is_not(id)(x)) by {
        if ids.push(id).contains(x.id) {
            let k = choose|k: int| 0 <= k < ids.push(id).len() && ids.push(id)[k] == x.id;
            if k < ids.len() {
                assert(ids[k] == x.id);
            }
        }
        if ids.contains(x.id) {
            let k = choose|k: int| 0 <= k < ids.len() && ids[k] == x.id;
            assert(ids.push(id)[k] == x.id);
        }
        if x.id == id {
            assert(ids.push(id)[ids.len() as int] == x.id);
        }
    }
    lemma_filter_filter(s, id_not_in(ids), crate::state::instance_id_is_not(id), id_not_in(ids.push(id)));
}

/// The deletes of the chosen instances `doomed` are under way at `si`, begun on the record
/// `base`: those before the current one are removed, and the current one may be marked as
/// being deleted.
spec fn deleting(si: Reconciler, base: Seq<InstanceView>, doomed: Seq<crate::spec::Instance>) -> bool {
    let ids = ids_of(doomed);
    let d = si.doomed_position() as int;
    &&& si.doomed_seq() == doomed
    &&& {
        ||| (si.stage_now() == Stage::DeleteNext && d <= ids.len() && si.db_view().instances == without_ids(
            base,
            ids.take(d),
        ))
        ||| (si.stage_now() == Stage::DeleteWait && d < ids.len() && si.db_view().instances
            == set_instance_status(without_ids(base, ids.take(d)), ids[d], "deleting"@))
    }
}

proof fn lemma_delete_step(
    pre: Reconciler,
    post: Reconciler,
    outcome: Option<Result<bool, String>>,
    now: u64,
    r: Step,
    base: Seq<InstanceView>,
    doomed: Seq<crate::spec::Instance>,
)
    requires
        deleting(pre, base, doomed),
        step_effect(pre, post, outcome, now, r),
    ensures
        deleting(post, base, doomed) || (post.stage_now() == Stage::SpecStart && post.db_view().instances
            == without_ids(base, ids_of(doomed))),
{
    let ids = ids_of(doomed);
    let d = pre.doomed_position() as int;
    if pre.stage_now() == Stage::DeleteNext {
        if d >= ids.len() {
            assert(ids.take(d) =~= ids);
        } else {
            assert(ids[d] == pre.doomed_seq()[d].id@);
        }
    } else {
        assert(ids[d] == pre.doomed_seq()[d].id@);
        lemma_without_marked(without_ids(base, ids.take(d)), ids[d], "deleting"@);
        lemma_without_one_more(base, ids.take(d), ids[d]);
        assert(ids.take(d).push(ids[d]) =~= ids.take(d + 1));
    }
}

/// At the start of the deletes nothing is removed yet.
proof fn lemma_deleting_begins(si: Reconciler, base: Seq<InstanceView>)
    requires
        si.stage_now() == Stage::DeleteNext,
        si.doomed_position() == 0,
        si.db_view().instances == base,
    ensures
        deleting(si, base, si.doomed_seq()),
{
    assert(ids_of(si.doomed_seq()).take(0) =~= Seq::<Seq<char>>::empty());
    lemma_keep_all(base, id_not_in(ids_of(si.doomed_seq()).take(0)));
}

proof fn lemma_delete_progress(
    states: Seq<Reconciler>,
    outcomes: Seq<Option<Result<bool, String>>>,
    steps: Seq<Step>,
    nows: Seq<u64>,
    i: int,
)
    requires
        is_run(states, outcomes, steps, nows),
        states[0].stage_now() == Stage::DeleteNext,
        states[0].doomed_position() == 0,
        forall|k: int| 0 <= k < states.len() - 1 ==> states[k].stage_now() != Stage::SpecStart,
        0 <= i < states.len(),
    ensures
        deleting(states[i], states[0].db_view().instances, states[0].doomed_seq()) || (states[i].stage_now()
            == Stage::SpecStart && states[i].db_view().instances == without_ids(
            states[0].db_view().instances,
            ids_of(states[0].doomed_seq()),
        )),
    decreases i,
{
    if i == 0 {
        lemma_deleting_begins(states[0], states[0].db_view().instances);
    } else {
        lemma_delete_progress(states, outcomes, steps, nows, i - 1);
        let k = i - 1;
        let r = steps[k];
        assert(states[k + 1] == states[i]);
        assert(step_effect(states[k], states[i], outcomes[k], nows[k], r));
        assert(states[k].stage_now() != Stage::SpecStart);
        lemma_delete_step(states[k], states[i], outcomes[k], nows[k], r, states[0].db_view().instances, states[0].doomed_seq());
    }
}

proof fn lemma_keep_all(s: Seq<InstanceView>, p: spec_fn(InstanceView) -> bool)
    requires
        forall|x: InstanceView| #[trigger] p(x),
    ensures
        s.filter(p) == s,
    decreases s.len(),
{
    reveal(Seq::filter);
    if s.len() > 0 {
        lemma_keep_all(s.drop_last(), p);
        assert(s.drop_last().push(s.last()) =~= s);
    }
}

/// Whatever the delete commands report, the deletes of a spec remove exactly the excess
/// instances chosen for deletion: from the step that begins them to the step where the
/// pass moves on to the next spec, the record loses the records of the chosen instances
/// and keeps every other one, in order.
pub proof fn law_deletes_remove_chosen(
    states: Seq<Reconciler>,
    outcomes: Seq<Option<Result<bool, String>>>,
    steps: Seq<Step>,
    nows: Seq<u64>,
)
    requires
        is_run(states, outcomes, steps, nows),
        states[0].stage_now() == Stage::DeleteNext,
        states[0].doomed_position() == 0,
        states.last().stage_now() == Stage::SpecStart,
        forall|k: int| 0 <= k < states.len() - 1 ==> states[k].stage_now() != Stage::SpecStart,
    ensures
        states.last().db_view().instances == without_ids(states[0].db_view().instances, ids_of(states[0].doomed_seq())),
{
    lemma_delete_progress(states, outcomes, steps, nows, states.len() - 1);
}

/// The instance is recorded as running.
pub open spec fn status_running() -> spec_fn(InstanceView) -> bool {
    |x: InstanceView| x.status == "running"@
}

/// A live instance of spec `name`.
spec fn live_of(name: Seq<char>) -> spec_fn(InstanceView) -> bool {
    |x: InstanceView| x.spec_name == name && crate::reconciler::is_live(x)
}

proof fn lemma_count_running_flags(t: Seq<InstanceView>)
    ensures
        count_true(t.map_values(status_running())) == t.filter(status_running()).len(),
    decreases t.len(),
{
    reveal(Seq::filter);
    if t.len() > 0 {
        lemma_count_running_flags(t.drop_last());
        assert(t.map_values(status_running()).drop_last() =~= t.drop_last().map_values(status_running()));
    }
}

proof fn lemma_live_running_count(db: Seq<InstanceView>, name: Seq<char>)
    ensures
        instances_of(db, name).filter(live()).filter(status_running()).len() == running_count(db, name),
{
    lemma_filter_filter(db, crate::state::instance_of_spec(name), live(), live_of(name));
    lemma_filter_filter(db, live_of(name), status_running(), running_of(name));
}

/// Where a spec's turn stands at `si`, for a turn that began at `s0` and is still
/// checking health: the instances are read, and the flags gathered so far say which of
/// the live ones checked so far are recorded as running.
spec fn turn_checking(si: Reconciler, s0: Reconciler, h: Seq<char>) -> bool {
    let name = current_name(s0);
    let inst0 = instances_of(s0.db_view().instances, name);
    let probed = iviews(si.running_seq()).take(si.probe_position() as int);
    &&& si.stage_now() == Stage::HealthNext || si.stage_now() == Stage::HealthWait || si.stage_now()
        == Stage::AfterHealth
    &&& current_entry(si) == current_entry(s0)
    &&& si.nodes_view() == s0.nodes_view()
    &&& si.health_template_view() == s0.health_template_view()
    &&& si.db_view() == s0.db_view()
    &&& !si.checking_new_instances()
    &&& si.current_hash_view() == h
    &&& iviews(si.instances_seq()) == inst0
    &&& iviews(si.running_seq()) == inst0.filter(live())
    &&& si.probe_position() <= si.running_seq().len()
    &&& si.healthy_flags() == probed.map_values(status_running())
    &&& si.stage_now() == Stage::AfterHealth ==> si.probe_position() == si.running_seq().len()
    &&& si.stage_now() == Stage::HealthWait ==> si.probe_position() < si.running_seq().len()
        && si.health_template_view().len() > 0
}

/// Where a spec's turn stands at state `i` of a run whose first state begins it.
spec fn turn_progress(states: Seq<Reconciler>, i: int, h: Seq<char>) -> bool {
    let s0 = states[0];
    let si = states[i];
    let name = current_name(s0);
    let db0 = s0.db_view().instances;
    let rc0 = running_count(db0, name) as int;
    let desired = current_entry(s0).spec.replicas as int;
    let n0 = instances_of(db0, name).len() as int;
    ||| i == 0
    ||| turn_checking(si, s0, h)
    ||| creating(si, name, s0.nodes_view(), desired - rc0, n0, rc0)
    ||| {
        &&& rc0 > desired
        &&& deleting(si, db0, si.doomed_seq())
        &&& iviews(si.doomed_seq()) == oldest_first(db0.filter(running_of(name))).take(rc0 - desired)
    }
    ||| (si.stage_now() == Stage::SpecStart && running_count(si.db_view().instances, name) == desired)
}

proof fn lemma_turn_progress(
    states: Seq<Reconciler>,
    outcomes: Seq<Option<Result<bool, String>>>,
    steps: Seq<Step>,
    nows: Seq<u64>,
    h: Seq<char>,
    i: int,
)
    requires
        is_run(states, outcomes, steps, nows),
        all_succeeded(outcomes),
        states[0].stage_now() == Stage::SpecStart,
        states[0].spec_position() < states[0].specs_view().len(),
        current_entry(states[0]).hash matches Ok(x) && x@ == h,
        states[0].health_template_view().len() == 0 || all_live_running(
            states[0].db_view().instances,
            current_name(states[0]),
        ),
        instances_of(states[0].db_view().instances, current_name(states[0])).filter(stale(h)).len() == 0,
        states[0].db_view().wf(),
        running_count(states[0].db_view().instances, current_name(states[0])) > current_entry(states[0]).spec.replicas
            ==> all_live_running(states[0].db_view().instances, current_name(states[0])),
        states[0].nodes_view().len() > 0,
        instances_of(states[0].db_view().instances, current_name(states[0])).len() + current_entry(states[0]).spec.replicas
            <= u32::MAX,
        forall|j: int|
            0 <= j < current_entry(states[0]).spec.replicas - running_count(
                states[0].db_view().instances,
                current_name(states[0]),
            ) ==> !id_recorded(
                states[0].db_view().instances,
                #[trigger] instance_name(
                    current_name(states[0]),
                    (instances_of(states[0].db_view().instances, current_name(states[0])).len() + j) as u32,
                ),
            ),
        forall|k: int| 1 <= k < states.len() - 1 ==> states[k].stage_now() != Stage::SpecStart,
        0 <= i < states.len(),
    ensures
        turn_progress(states, i, h),
    decreases i,
{
    if i > 0 {
        lemma_turn_progress(states, outcomes, steps, nows, h, i - 1);
        let k = i - 1;
        let s0 = states[0];
        let pre = states[k];
        let post = states[i];
        let r = steps[k];
        let name = current_name(s0);
        let db0 = s0.db_view().instances;
        let rc0 = running_count(db0, name) as int;
        let desired = current_entry(s0).spec.replicas as int;
        let n0 = instances_of(db0, name).len() as int;
        assert(states[k + 1] == post);
        assert(step_post(pre, post, r));
        assert(step_effect(pre, post, outcomes[k], nows[k], r));
        assert(outcomes[k] matches Some(o) ==> o == Ok::<bool, String>(true));
        if k == 0 {
            assert(iviews(post.running_seq()).take(0) =~= Seq::<InstanceView>::empty());
            assert(post.healthy_flags() =~= Seq::<bool>::empty());
            assert(current_entry(post) == current_entry(s0));
            assert(post.healthy_flags() == iviews(post.running_seq()).take(0).map_values(status_running()));
        } else if turn_checking(pre, s0, h) {
            let run = iviews(pre.running_seq());
            let p = pre.probe_position() as int;
            if pre.stage_now() == Stage::HealthNext || pre.stage_now() == Stage::HealthWait {
                assert(current_entry(post) == current_entry(s0));
                if p < run.len() {
                    assert(run.take(p + 1).map_values(status_running()) =~= run.take(p).map_values(
                        status_running(),
                    ).push(run[p].status == "running"@));
                    assert(probed_list(pre)[p]@ == run[p]);
                    if s0.health_template_view().len() > 0 {
                        lemma_live_is_running(db0, name);
                        assert(run[p] == db0.filter(running_of(name))[p]);
                        db0.lemma_filter_pred(running_of(name), p);
                    }
                    if pre.stage_now() == Stage::HealthWait {
                        assert(outcomes[k] == Some(Ok::<bool, String>(true)));
                    }
                }
            } else {
                assert(run.take(p) =~= run);
                lemma_count_running_flags(run);
                lemma_live_running_count(db0, name);
                assert(iviews(pre.instances_seq()).filter(stale(pre.current_hash_view())).len() == 0);
                assert(count_true(pre.healthy_flags()) == rc0);
                if rc0 < desired {
                    assert(current_name(post) == name);
                    assert(pre.instances_seq().len() == n0);
                } else if rc0 > desired {
                    lemma_live_is_running(db0, name);
                    let flags = pre.healthy_flags();
                    assert forall|j: int| 0 <= j < run.len() implies flags[j] by {
                        assert(run[j] == db0.filter(running_of(name))[j]);
                        db0.lemma_filter_pred(running_of(name), j);
                    }
                    lemma_flagged_all(run, flags);
                    assert(oldest_first(Seq::<InstanceView>::empty()) == Seq::<InstanceView>::empty());
                    assert(Seq::<InstanceView>::empty() + oldest_first(run) =~= oldest_first(run));
                    lemma_deleting_begins(post, db0);
                }
            }
        } else if creating(pre, name, s0.nodes_view(), desired - rc0, n0, rc0) {
            lemma_create_step(pre, post, outcomes[k], nows[k], r, name, s0.nodes_view(), desired - rc0, n0, rc0);
        } else {
            let doomed = pre.doomed_seq();
            lemma_delete_step(pre, post, outcomes[k], nows[k], r, db0, doomed);
            if post.stage_now() == Stage::SpecStart {
                assert(ids_of(doomed) =~= view_ids(iviews(doomed)));
                lemma_deletes_leave(db0, name, rc0 - desired);
            }
        }
    }
}

/// When every command succeeds, a spec's turn in a pass brings its running instances to
/// the desired replicas: from the step that takes up the spec to the step where the pass
/// moves on to the next one, the missing instances are created or the excess deleted, and
/// the spec ends with exactly `replicas` running instances. This holds for a spec whose
/// hash was computed and with no instance left from an older version of the spec, in a
/// record whose instance ids are unique, and, where a health command is configured, whose
/// live instances of the spec are all running (a succeeding health command counts an
/// instance that is about to start as healthy, a status check does not). With too few
/// running instances, some node must be configured, the indexes of the new instances must
/// fit in `u32`, and no recorded instance may already have one of the names they get;
/// with too many, every live instance of the spec must be running (otherwise the
/// instances about to start are deleted first and running ones remain).
pub proof fn law_turn_reaches_replicas(
    states: Seq<Reconciler>,
    outcomes: Seq<Option<Result<bool, String>>>,
    steps: Seq<Step>,
    nows: Seq<u64>,
)
    requires
        is_run(states, outcomes, steps, nows),
        all_succeeded(outcomes),
        states.len() > 1,
        states[0].stage_now() == Stage::SpecStart,
        states[0].spec_position() < states[0].specs_view().len(),
        current_entry(states[0]).hash is Ok,
        states[0].health_template_view().len() == 0 || all_live_running(
            states[0].db_view().instances,
            current_name(states[0]),
        ),
        instances_of(states[0].db_view().instances, current_name(states[0])).filter(
            stale(current_entry(states[0]).hash->Ok_0@),
        ).len() == 0,
        states[0].db_view().wf(),
        running_count(states[0].db_view().instances, current_name(states[0])) > current_entry(states[0]).spec.replicas
            ==> all_live_running(states[0].db_view().instances, current_name(states[0])),
        states[0].nodes_view().len() > 0,
        instances_of(states[0].db_view().instances, current_name(states[0])).len() + current_entry(states[0]).spec.replicas
            <= u32::MAX,
        forall|j: int|
            0 <= j < current_entry(states[0]).spec.replicas - running_count(
                states[0].db_view().instances,
                current_name(states[0]),
            ) ==> !id_recorded(
                states[0].db_view().instances,
                #[trigger] instance_name(
                    current_name(states[0]),
                    (instances_of(states[0].db_view().instances, current_name(states[0])).len() + j) as u32,
                ),
            ),
        states.last().stage_now() == Stage::SpecStart,
        forall|k: int| 1 <= k < states.len() - 1 ==> states[k].stage_now() != Stage::SpecStart,
    ensures
        running_count(states.last().db_view().instances, current_name(states[0])) == current_entry(
            states[0],
        ).spec.replicas,
{
    let h = current_entry(states[0]).hash->Ok_0@;
    lemma_turn_progress(states, outcomes, steps, nows, h, states.len() - 1);
}

/// The ids of a sequence of instance records, in order.
pub open spec fn view_ids(v: Seq<InstanceView>) -> Seq<Seq<char>> {
    v.map_values(|x: InstanceView| x.id)
}

proof fn lemma_filter_congruent(s: Seq<InstanceView>, p: spec_fn(InstanceView) -> bool, q: spec_fn(InstanceView) -> bool)
    requires
        forall|k: int| 0 <= k < s.len() ==> p(#[trigger] s[k]) == q(s[k]),
    ensures
        s.filter(p) == s.filter(q),
    decreases s.len(),
{
    reveal(Seq::filter);
    if s.len() > 0 {
        lemma_filter_congruent(s.drop_last(), p, q);
        assert(p(s[s.len() - 1]) == q(s[s.len() - 1]));
    }
}

proof fn lemma_unique_remove(t: Seq<InstanceView>, i: int)
    requires
        unique_instance_ids(t),
        0 <= i < t.len(),
    ensures
        unique_instance_ids(t.remove(i)),
        forall|m: int| 0 <= m < t.remove(i).len() ==> #[trigger] t.remove(i)[m].id != t[i].id,
        forall|m: int| 0 <= m < t.remove(i).len() ==> t.contains(#[trigger] t.remove(i)[m]),
{
    let u = t.remove(i);
    assert forall|m: int| 0 <= m < u.len() implies #[trigger] u[m].id != t[i].id && t.contains(u[m]) by {
        if m < i {
            assert(u[m] == t[m]);
        } else {
            assert(u[m] == t[m + 1]);
        }
    }
    assert forall|a: int, b: int| 0 <= a < b < u.len() implies u[a].id != u[b].id by {
        let a2 = if a < i { a } else { a + 1 };
        let b2 = if b < i { b } else { b + 1 };
        assert(u[a] == t[a2]);
        assert(u[b] == t[b2]);
    }
}

proof fn lemma_oldest_first_from(t: Seq<InstanceView>)
    ensures
        forall|k: int| 0 <= k < oldest_first(t).len() ==> t.contains(#[trigger] oldest_first(t)[k]),
        unique_instance_ids(t) ==> unique_instance_ids(oldest_first(t)),
    decreases t.len(),
{
    if t.len() > 0 {
        lemma_oldest_index_range(t);
        let i = oldest_index(t);
        let u = t.remove(i);
        lemma_oldest_first_from(u);
        let o = oldest_first(t);
        let o2 = oldest_first(u);
        assert(o == seq![t[i]] + o2);
        assert forall|k: int| 0 <= k < o.len() implies t.contains(#[trigger] o[k]) by {
            if k > 0 {
                assert(o[k] == o2[k - 1]);
                assert(u.contains(o2[k - 1]));
                let m = choose|m: int| 0 <= m < u.len() && u[m] == o2[k - 1];
                if m < i {
                    assert(u[m] == t[m]);
                } else {
                    assert(u[m] == t[m + 1]);
                }
            }
        }
        if unique_instance_ids(t) {
            lemma_unique_remove(t, i);
            assert forall|a: int, b: int| 0 <= a < b < o.len() implies o[a].id != o[b].id by {
                assert(o[b] == o2[b - 1]);
                if a == 0 {
                    assert(u.contains(o2[b - 1]));
                    let m = choose|m: int| 0 <= m < u.len() && u[m] == o2[b - 1];
                    assert(u[m].id != t[i].id);
                } else {
                    assert(o[a] == o2[a - 1]);
                }
            }
        }
    }
}

proof fn lemma_filter_out_one(s: Seq<InstanceView>, x: InstanceView)
    requires
        unique_instance_ids(s),
        s.contains(x),
    ensures
        without_instance(s, x.id).len() == s.len() - 1,
    decreases s.len(),
{
    reveal(Seq::filter);
    let d = s.drop_last();
    assert(unique_instance_ids(d));
    if s.last().id == x.id {
        assert(!id_recorded(d, x.id)) by {
            if id_recorded(d, x.id) {
                let k = choose|k: int| 0 <= k < d.len() && d[k].id == x.id;
                assert(s[k].id == s[s.len() - 1].id);
            }
        }
        lemma_without_absent(d, x.id);
    } else {
        let k = choose|k: int| 0 <= k < s.len() && s[k] == x;
        assert(k < s.len() - 1);
        assert(d[k] == x);
        lemma_filter_out_one(d, x);
    }
}

proof fn lemma_remove_ids_count(r: Seq<InstanceView>, sel: Seq<InstanceView>)
    requires
        unique_instance_ids(r),
        unique_instance_ids(sel),
        forall|k: int| 0 <= k < sel.len() ==> r.contains(#[trigger] sel[k]),
    ensures
        without_ids(r, view_ids(sel)).len() == r.len() - sel.len(),
    decreases sel.len(),
{
    if sel.len() == 0 {
        assert(view_ids(sel) =~= Seq::<Seq<char>>::empty());
        lemma_keep_all(r, id_not_in(view_ids(sel)));
    } else {
        let s1 = sel.drop_last();
        let x = sel.last();
        assert(unique_instance_ids(s1));
        assert forall|k: int| 0 <= k < s1.len() implies r.contains(#[trigger] s1[k]) by {
            assert(s1[k] == sel[k]);
        }
        lemma_remove_ids_count(r, s1);
        let ids = view_ids(s1);
        assert(view_ids(sel) =~= ids.push(x.id));
        lemma_without_one_more(r, ids, x.id);
        let f = without_ids(r, ids);
        lemma_filter_keeps_distinct_keys(r, id_not_in(ids), |y: InstanceView| y.id);
        assert(r.contains(sel[sel.len() - 1]));
        assert(!ids.contains(x.id)) by {
            if ids.contains(x.id) {
                let k = choose|k: int| 0 <= k < ids.len() && ids[k] == x.id;
                assert(sel[k].id == sel[sel.len() - 1].id);
            }
        }
        let w = choose|w: int| 0 <= w < r.len() && r[w] == x;
        r.lemma_filter_contains(id_not_in(ids), w);
        lemma_filter_out_one(f, x);
    }
}

/// Every live instance of spec `name` is recorded as running.
pub open spec fn all_live_running(s: Seq<InstanceView>, name: Seq<char>) -> bool {
    forall|k: int|
        0 <= k < s.len() && #[trigger] s[k].spec_name == name && crate::reconciler::is_live(s[k]) ==> s[k].status
            == "running"@
}

proof fn lemma_live_is_running(db: Seq<InstanceView>, name: Seq<char>)
    requires
        all_live_running(db, name),
    ensures
        instances_of(db, name).filter(live()) == db.filter(running_of(name)),
{
    lemma_filter_filter(db, crate::state::instance_of_spec(name), live(), live_of(name));
    assert forall|k: int| 0 <= k < db.len() implies live_of(name)(#[trigger] db[k]) == running_of(name)(db[k]) by {
        if db[k].spec_name == name && crate::reconciler::is_live(db[k]) {
            assert(db[k].status == "running"@);
        }
    }
    lemma_filter_congruent(db, live_of(name), running_of(name));
}

proof fn lemma_flagged_all(r: Seq<InstanceView>, f: Seq<bool>)
    requires
        r.len() <= f.len(),
        forall|k: int| 0 <= k < r.len() ==> f[k],
    ensures
        flagged(r, f, true) == r,
        flagged(r, f, false) == Seq::<InstanceView>::empty(),
    decreases r.len(),
{
    if r.len() > 0 {
        lemma_flagged_all(r.drop_last(), f);
        assert(r.drop_last().push(r.last()) =~= r);
    }
}

/// Running instances of spec `name` whose ids are not among `ids`.
spec fn running_kept(ids: Seq<Seq<char>>, name: Seq<char>) -> spec_fn(InstanceView) -> bool {
    |x: InstanceView| running_of(name)(x) && id_not_in(ids)(x)
}

proof fn lemma_deletes_leave(db: Seq<InstanceView>, name: Seq<char>, e: int)
    requires
        unique_instance_ids(db),
        0 <= e <= running_count(db, name),
    ensures
        running_count(
            without_ids(db, view_ids(oldest_first(db.filter(running_of(name))).take(e))),
            name,
        ) == running_count(db, name) - e,
{
    let rr = db.filter(running_of(name));
    lemma_filter_keeps_distinct_keys(db, running_of(name), |y: InstanceView| y.id);
    assert(unique_instance_ids(rr));
    lemma_oldest_first_from(rr);
    crate::reconciler::lemma_oldest_first_len(rr);
    let o = oldest_first(rr);
    let sel = o.take(e);
    assert forall|k: int| 0 <= k < sel.len() implies rr.contains(#[trigger] sel[k]) by {
        assert(sel[k] == o[k]);
    }
    assert(unique_instance_ids(sel)) by {
        assert forall|a: int, b: int| 0 <= a < b < sel.len() implies sel[a].id != sel[b].id by {
            assert(sel[a] == o[a] && sel[b] == o[b]);
        }
    }
    lemma_remove_ids_count(rr, sel);
    let ids = view_ids(sel);
    lemma_filter_filter(db, id_not_in(ids), running_of(name), running_kept(ids, name));
    lemma_filter_filter(db, running_of(name), id_not_in(ids), running_kept(ids, name));
}

/// How many of the outcomes report success.
pub open spec fn successes(outcomes: Seq<Option<Result<bool, String>>>) -> nat
    decreases outcomes.len(),
{
    if outcomes.len() == 0 {
        0
    } else {
        successes(outcomes.drop_last()) + if outcomes.last() == Some(Ok::<bool, String>(true)) {
            1nat
        } else {
            0nat
        }
    }
}

proof fn lemma_successes_prefix(outcomes: Seq<Option<Result<bool, String>>>, i: int, n: int)
    requires
        0 <= i <= n <= outcomes.len(),
    ensures
        successes(outcomes.take(i)) <= successes(outcomes.take(n)),
    decreases n - i,
{
    if i < n {
        lemma_successes_prefix(outcomes, i, n - 1);
        assert(outcomes.take(n).drop_last() =~= outcomes.take(n - 1));
    }
}

/// What a spec's turn in a pass does to a rollout already under way towards the spec's
/// current hash, while instances built from an older version remain (`s0` takes up the
/// spec, `s1` moves on from it, `outcomes` are the command results handed over between).
/// The node records stay as they are, and by the rollout's phase:
/// - `creating`: until the desired replicas were created, one new running instance of the
///   spec with the new hash may be recorded, with the rollout counting it (or nothing
///   changes, when its create fails or no node is available); after that, the phase moves
///   to `waiting_healthy`;
/// - `waiting_healthy`: the instances stay; the phase moves to `draining` only when at
///   least the desired replicas of instances built from the new hash exist and passed their
///   health check (recorded as running without a health command; with one, that many
///   commands succeeded);
/// - `draining`: exactly the first old instance is removed and the rollout stays;
/// - `complete`: the rollout record is removed;
/// - any other phase: nothing changes.
pub open spec fn rollout_turn(s0: Reconciler, s1: Reconciler, outcomes: Seq<Option<Result<bool, String>>>) -> bool {
    let name = current_name(s0);
    let h = current_entry(s0).hash->Ok_0@;
    let db0 = s0.db_view();
    let db1 = s1.db_view();
    let rs = db0.rollouts;
    let ro = rollout_of(rs, name)->Some_0;
    let inst0 = instances_of(db0.instances, name);
    let old0 = inst0.filter(stale(h));
    let new0 = inst0.filter(built_from(h));
    let replicas = current_entry(s0).spec.replicas;
    &&& db1.nodes == db0.nodes
    &&& if ro.phase == "creating"@ {
        if ro.created_count < replicas {
            let p = db1.instances.last();
            ||| (db1.instances == db0.instances && db1.rollouts == rs)
            ||| {
                &&& db1.instances.len() > 0
                &&& p.id == instance_name(name, inst0.len() as u32)
                &&& p.spec_name == name
                &&& p.spec_hash == h
                &&& p.status == "running"@
                &&& db1.instances == put_instance(db0.instances, p)
                &&& db1.rollouts == bump_rollout_count(rs, name)
            }
        } else {
            db1.instances == db0.instances && db1.rollouts == set_rollout_phase(rs, name, "waiting_healthy"@)
        }
    } else if ro.phase == "waiting_healthy"@ {
        &&& db1.instances == db0.instances
        &&& {
            ||| db1.rollouts == rs
            ||| {
                &&& db1.rollouts == set_rollout_phase(rs, name, "draining"@)
                &&& new0.len() >= replicas
                &&& s0.health_template_view().len() == 0 ==> new0.filter(status_running()).len() >= replicas
                &&& s0.health_template_view().len() > 0 ==> successes(outcomes) >= replicas
            }
        }
    } else if ro.phase == "draining"@ {
        db1.instances == without_instance(db0.instances, old0[0].id) && db1.rollouts == rs
    } else if ro.phase == "complete"@ {
        db1.instances == db0.instances && db1.rollouts == without_rollout(rs, name)
    } else {
        db1.instances == db0.instances && db1.rollouts == rs
    }
}

/// The parts of a turn's state that stay as they were when the turn began.
spec fn same_turn(si: Reconciler, s0: Reconciler, h: Seq<char>) -> bool {
    &&& current_entry(si) == current_entry(s0)
    &&& si.nodes_view() == s0.nodes_view()
    &&& si.health_template_view() == s0.health_template_view()
    &&& si.current_hash_view() == h
    &&& iviews(si.instances_seq()) == instances_of(s0.db_view().instances, current_name(s0))
}

/// Where a rollout turn stands at state `i` of a run whose first state begins it.
spec fn rollout_turn_progress(
    states: Seq<Reconciler>,
    outcomes: Seq<Option<Result<bool, String>>>,
    i: int,
    h: Seq<char>,
) -> bool {
    let s0 = states[0];
    let si = states[i];
    let name = current_name(s0);
    let db0 = s0.db_view();
    let ro = rollout_of(db0.rollouts, name)->Some_0;
    let inst0 = instances_of(db0.instances, name);
    let old0 = inst0.filter(stale(h));
    let new0 = inst0.filter(built_from(h));
    let replicas = current_entry(s0).spec.replicas;
    let nv = iviews(si.new_instances_seq());
    let probe = si.probe_position() as int;
    ||| i == 0
    ||| {
        &&& si.stage_now() == Stage::HealthNext || si.stage_now() == Stage::HealthWait || si.stage_now()
            == Stage::AfterHealth
        &&& !si.checking_new_instances()
        &&& same_turn(si, s0, h)
        &&& si.db_view() == db0
    }
    ||| {
        &&& si.stage_now() == Stage::HealthNext || si.stage_now() == Stage::HealthWait || si.stage_now()
            == Stage::RolloutPhase
        &&& si.checking_new_instances()
        &&& same_turn(si, s0, h)
        &&& si.db_view() == db0
        &&& si.rollout_opt() matches Some(x) && x@ == ro
        &&& iviews(si.stale_seq()) == old0
        &&& nv == new0
        &&& si.healthy_new_flags().len() == probe
        &&& probe <= nv.len()
        &&& si.stage_now() == Stage::RolloutPhase ==> probe == nv.len()
        &&& si.stage_now() == Stage::HealthWait ==> probe < nv.len() && si.health_template_view().len() > 0
        &&& si.health_template_view().len() == 0 ==> si.healthy_new_flags() == nv.take(probe).map_values(
            status_running(),
        )
        &&& si.health_template_view().len() > 0 ==> count_true(si.healthy_new_flags()) <= successes(outcomes.take(i))
    }
    ||| {
        &&& si.stage_now() == Stage::RolloutCreateWait
        &&& current_entry(si) == current_entry(s0)
        &&& si.db_view() == db0
        &&& ro.phase == "creating"@
        &&& ro.created_count < replicas
        &&& si.pending_opt() matches Some(p) && p@.id == instance_name(name, inst0.len() as u32)
            && p@.spec_name == name && p@.spec_hash == h
    }
    ||| {
        &&& si.stage_now() == Stage::DrainWait
        &&& current_entry(si) == current_entry(s0)
        &&& ro.phase == "draining"@
        &&& si.stale_seq().len() > 0
        &&& si.stale_seq()[0]@ == old0[0]
        &&& si.db_view().instances == set_instance_status(db0.instances, old0[0].id, "deleting"@)
        &&& si.db_view().nodes == db0.nodes
        &&& si.db_view().rollouts == db0.rollouts
    }
    ||| (si.stage_now() == Stage::SpecStart && rollout_turn(s0, si, outcomes.take(i)))
}

proof fn lemma_phase_names_differ()
    ensures
        "waiting_healthy"@ != "creating"@,
        "draining"@ != "creating"@,
        "draining"@ != "waiting_healthy"@,
        "complete"@ != "creating"@,
        "complete"@ != "waiting_healthy"@,
        "complete"@ != "draining"@,
{
    reveal_strlit("creating");
    reveal_strlit("waiting_healthy");
    reveal_strlit("draining");
    reveal_strlit("complete");
    assert("draining"@[0] != "creating"@[0]);
    assert("complete"@[1] != "creating"@[1]);
    assert("complete"@[0] != "draining"@[0]);
}

proof fn lemma_count_true_push(f: Seq<bool>, b: bool)
    ensures
        count_true(f.push(b)) == count_true(f) + if b { 1nat } else { 0nat },
{
    assert(f.push(b).drop_last() =~= f);
}

proof fn lemma_count_true_len(f: Seq<bool>)
    ensures
        count_true(f) <= f.len(),
    decreases f.len(),
{
    if f.len() > 0 {
        lemma_count_true_len(f.drop_last());
    }
}

proof fn lemma_rollout_turn_progress(
    states: Seq<Reconciler>,
    outcomes: Seq<Option<Result<bool, String>>>,
    steps: Seq<Step>,
    nows: Seq<u64>,
    h: Seq<char>,
    i: int,
)
    requires
        is_run(states, outcomes, steps, nows),
        states[0].stage_now() == Stage::SpecStart,
        states[0].spec_position() < states[0].specs_view().len(),
        current_entry(states[0]).hash matches Ok(x) && x@ == h,
        rollout_of(states[0].db_view().rollouts, current_name(states[0])) matches Some(ro) && ro.new_hash == h,
        instances_of(states[0].db_view().instances, current_name(states[0])).filter(stale(h)).len() > 0,
        forall|k: int| 1 <= k < states.len() - 1 ==> states[k].stage_now() != Stage::SpecStart,
        0 <= i < states.len(),
    ensures
        rollout_turn_progress(states, outcomes, i, h),
    decreases i,
{
    if i > 0 {
        lemma_phase_names_differ();
        lemma_rollout_turn_progress(states, outcomes, steps, nows, h, i - 1);
        let k = i - 1;
        let s0 = states[0];
        let pre = states[k];
        let post = states[i];
        let r = steps[k];
        let name = current_name(s0);
        let db0 = s0.db_view();
        let ro = rollout_of(db0.rollouts, name)->Some_0;
        let inst0 = instances_of(db0.instances, name);
        let old0 = inst0.filter(stale(h));
        let new0 = inst0.filter(built_from(h));
        assert(states[k + 1] == post);
        assert(step_post(pre, post, r));
        assert(step_effect(pre, post, outcomes[k], nows[k], r));
        assert(outcomes[k] is Some <==> pre.awaiting());
        assert(outcomes.take(i).drop_last() =~= outcomes.take(k));
        assert(outcomes.take(i).last() == outcomes[k]);
        if k == 0 {
            assert(current_entry(post) == current_entry(s0));
            assert(rollout_turn_progress(states, outcomes, i, h));
        } else if pre.stage_now() == Stage::SpecStart {
            assert(false);
        } else if !pre.checking_new_instances() && (pre.stage_now() == Stage::HealthNext || pre.stage_now()
            == Stage::HealthWait || pre.stage_now() == Stage::AfterHealth) {
            assert(current_entry(post) == current_entry(s0));
            if pre.stage_now() == Stage::AfterHealth {
                assert(iviews(pre.instances_seq()).filter(stale(pre.current_hash_view())) == old0);
                assert(post.db_view() == db0);
                assert(iviews(post.new_instances_seq()).take(0).map_values(status_running()) =~= Seq::<bool>::empty());
                assert(post.healthy_new_flags() =~= Seq::<bool>::empty());
            }
            assert(rollout_turn_progress(states, outcomes, i, h));
        } else if pre.stage_now() == Stage::HealthNext || pre.stage_now() == Stage::HealthWait {
            let nv = iviews(pre.new_instances_seq());
            let p = pre.probe_position() as int;
            assert(current_entry(post) == current_entry(s0));
            if p < nv.len() {
                assert(nv.take(p + 1).map_values(status_running()) =~= nv.take(p).map_values(status_running()).push(
                    nv[p].status == "running"@,
                ));
                assert(probed_list(pre)[p]@ == nv[p]);
            }
            if pre.stage_now() == Stage::HealthWait {
                let flag = outcomes[k]->Some_0 == Ok::<bool, String>(true);
                lemma_count_true_push(pre.healthy_new_flags(), flag);
            } else if p < nv.len() && pre.health_template_view().len() == 0 {
                lemma_count_true_push(pre.healthy_new_flags(), nv[p].status == "running"@);
            }
            assert(successes(outcomes.take(k)) <= successes(outcomes.take(i)));
            assert(rollout_turn_progress(states, outcomes, i, h));
        } else if pre.stage_now() == Stage::RolloutPhase {
            let x = pre.rollout_opt()->Some_0;
            assert(x@ == ro);

            if ro.phase == "waiting_healthy"@ {
                let nv = iviews(pre.new_instances_seq());
                lemma_count_true_len(pre.healthy_new_flags());
                if pre.health_template_view().len() == 0 {
                    assert(nv.take(nv.len() as int) =~= nv);
                    lemma_count_running_flags(nv);
                }
            } else if ro.phase == "draining"@ {
                assert(pre.stale_seq().len() == old0.len());
                assert(pre.stale_seq()[0]@ == old0[0]);
                assert(current_entry(post) == current_entry(s0));
            } else if ro.phase == "creating"@ && ro.created_count < current_entry(s0).spec.replicas
                && available_nodes(pre.db_view(), pre.nodes_view()).len() > 0 {
                assert(pre.instances_seq().len() == inst0.len());
                assert(current_entry(post) == current_entry(s0));
            }
            assert(rollout_turn_progress(states, outcomes, i, h));
        } else if pre.stage_now() == Stage::RolloutCreateWait {
            let p = pre.pending_opt()->Some_0;
            if outcomes[k]->Some_0 is Ok {
                let q = as_running(p@);
                assert(q.id == instance_name(name, inst0.len() as u32) && q.spec_name == name && q.spec_hash == h
                    && q.status == "running"@ && post.db_view().instances == put_instance(db0.instances, q)
                    && post.db_view().rollouts == bump_rollout_count(db0.rollouts, name));
                assert(post.db_view().instances.last() == q);
                assert(rollout_turn(s0, post, outcomes.take(i)));
            } else {
                assert(post.db_view() == db0);
                assert(rollout_turn(s0, post, outcomes.take(i)));
            }
            assert(rollout_turn_progress(states, outcomes, i, h));
        } else {
            assert(pre.stage_now() == Stage::DrainWait);
            lemma_without_marked(db0.instances, old0[0].id, "deleting"@);
            assert(rollout_turn_progress(states, outcomes, i, h));
        }
    }
}

/// A rollout runs its course over a whole turn of a spec in a pass: from the step that
/// takes up the spec to the step where the pass moves on to the next one, a rollout already
/// under way towards the spec's current hash, while instances built from an older version
/// remain, changes the record as [`rollout_turn`] says: at most one phase further, at most
/// one old instance drained (only while `draining`), at most one new instance created (only
/// while `creating`), and `draining` reached only with enough healthy new instances.
pub proof fn law_rollout_turn(
    states: Seq<Reconciler>,
    outcomes: Seq<Option<Result<bool, String>>>,
    steps: Seq<Step>,
    nows: Seq<u64>,
)
    requires
        is_run(states, outcomes, steps, nows),
        states.len() > 1,
        states[0].stage_now() == Stage::SpecStart,
        states[0].spec_position() < states[0].specs_view().len(),
        current_entry(states[0]).hash is Ok,
        rollout_of(states[0].db_view().rollouts, current_name(states[0])) matches Some(ro) && ro.new_hash
            == current_entry(states[0]).hash->Ok_0@,
        instances_of(states[0].db_view().instances, current_name(states[0])).filter(
            stale(current_entry(states[0]).hash->Ok_0@),
        ).len() > 0,
        states.last().stage_now() == Stage::SpecStart,
        forall|k: int| 1 <= k < states.len() - 1 ==> states[k].stage_now() != Stage::SpecStart,
    ensures
        rollout_turn(states[0], states.last(), outcomes),
{
    let h = current_entry(states[0]).hash->Ok_0@;
    lemma_rollout_turn_progress(states, outcomes, steps, nows, h, states.len() - 1);
    assert(outcomes.take(states.len() - 1) =~= outcomes);
}

} // verus!
