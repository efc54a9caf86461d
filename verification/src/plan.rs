//! Plans: what a reconciliation pass would do, as entries to review first and carry out
//! later.
//!
//! A plan is made by running a pass in which every command counts as succeeded and none
//! is run ([`plan_step`]); carrying out an entry runs its command and records the result
//! ([`plan_command`], [`record_plan_result`]).

use vstd::prelude::*;
use crate::pass::step_effect;
use crate::reconciler::{step_post, subject_of, timestamp, Reconciler, Step};
use crate::spec::{Instance, InstanceView};
use crate::state::{put_instance, without_instance, StateDB};
use crate::text::{chars_of, slice, spec_decimal, string_of};

verus! {

/// One entry of a plan.
#[derive(Debug)]
pub enum PlanAction {
    /// A decision worth telling, with nothing to run.
    Notify { message: String },
    /// Create instance `instance_id` on `node` by running `cmd`.
    Create { instance_id: String, node: String, cmd: String },
    /// Delete instance `instance_id` on `node` by running `cmd`.
    Delete { instance_id: String, node: String, cmd: String },
}

/// The content of a plan entry.
pub enum PlanView {
    Notify(Seq<char>),
    Create(Seq<char>, Seq<char>, Seq<char>),
    Delete(Seq<char>, Seq<char>, Seq<char>),
}

impl View for PlanAction {
    type V = PlanView;

    open spec fn view(&self) -> PlanView {
        match self {
            PlanAction::Notify { message } => PlanView::Notify(message@),
            PlanAction::Create { instance_id, node, cmd } => PlanView::Create(instance_id@, node@, cmd@),
            PlanAction::Delete { instance_id, node, cmd } => PlanView::Delete(instance_id@, node@, cmd@),
        }
    }
}

/// The contents of plan entries.
pub open spec fn plan_views(v: Seq<PlanAction>) -> Seq<PlanView> {
    v.map_values(|a: PlanAction| a@)
}

/// One notice per line.
pub open spec fn notices(lines: Seq<Seq<char>>) -> Seq<PlanView> {
    lines.map_values(|l: Seq<char>| PlanView::Notify(l))
}

/// The entries one step of a pass adds to a plan, the pass going from `pre` to `post` and
/// the step returning `r`. The result of a command adds nothing (no command is run while
/// planning); a step that asks for a create or delete command adds that command as an
/// entry, in place of the line that announces it; every other line becomes a notice.
pub open spec fn plan_entries(pre: Reconciler, post: Reconciler, r: Step) -> Seq<PlanView> {
    let new_lines = post.actions_view().skip(pre.actions_view().len() as int);
    if pre.awaiting() {
        Seq::empty()
    } else {
        match r {
            Step::Run(c) => {
                let shown = if new_lines.len() > 0 {
                    new_lines.drop_last()
                } else {
                    new_lines
                };
                notices(shown) + match subject_of(post) {
                    Some((create, id, node)) => if create {
                        seq![PlanView::Create(id, node, c@)]
                    } else {
                        seq![PlanView::Delete(id, node, c@)]
                    },
                    None => Seq::empty(),
                }
            },
            _ => notices(new_lines),
        }
    }
}

/// Takes a pass one step further as a plan sees it: the command asked for by the previous
/// step counts as succeeded, without being run. Returns the step and the plan entries it
/// adds.
pub fn plan_step(rec: &mut Reconciler, now: u64) -> (r: (Step, Vec<PlanAction>))
    requires
        old(rec).inv(),
    ensures
        step_post(*old(rec), *final(rec), r.0),
        step_effect(
            *old(rec),
            *final(rec),
            if old(rec).awaiting() {
                Some(Ok::<bool, String>(true))
            } else {
                None
            },
            now,
            r.0,
        ),
        plan_views(r.1@) == plan_entries(*old(rec), *final(rec), r.0),
{
    let awaiting = rec.is_awaiting();
    let before = rec.action_lines().len();
    let ghost a0 = rec.actions_view();
    let outcome: Option<Result<bool, String>> = if awaiting {
        Some(Ok(true))
    } else {
        None
    };
    let step = rec.step(outcome, now);
    let mut entries: Vec<PlanAction> = Vec::new();
    if !awaiting {
        let lines = rec.action_lines();
        let n = lines.len();
        let ghost new_lines = rec.actions_view().skip(a0.len() as int);
        let is_run = match &step {
            Step::Run(_) => true,
            _ => false,
        };
        let last = if is_run && n > before {
            n - 1
        } else {
            n
        };
        let ghost shown = new_lines.take(last - before);
        let mut i: usize = before;
        while i < last
            invariant
                before <= i <= last <= n,
                n == lines@.len(),
                before == a0.len(),
                crate::text::sviews(lines@) == rec.actions_view(),
                new_lines == rec.actions_view().skip(a0.len() as int),
                plan_views(entries@) == notices(new_lines.take(i - before)),
            decreases last - i,
        {
            let ghost e0 = entries@;
            let m = lines[i].clone();
            entries.push(PlanAction::Notify { message: m });
            proof {
                assert(new_lines.take(i + 1 - before) =~= new_lines.take(i - before).push(lines@[i as int]@));
                assert(plan_views(entries@) =~= plan_views(e0).push(PlanView::Notify(m@)));
            }
            i += 1;
        }
        proof {
            if is_run && n > before {
                assert(new_lines.take(last - before) =~= new_lines.drop_last());
            } else {
                assert(new_lines.take(last - before) =~= new_lines);
            }
        }
        if let Step::Run(c) = &step {
            let ghost e1 = entries@;
            match rec.command_subject() {
                Some((create, id, node)) => {
                    let cmd = c.clone();
                    let entry = if create {
                        PlanAction::Create { instance_id: id, node, cmd }
                    } else {
                        PlanAction::Delete { instance_id: id, node, cmd }
                    };
                    let ghost v = entry@;
                    entries.push(entry);
                    assert(plan_views(entries@) =~= plan_views(e1).push(v));
                },
                None => {
                    assert(plan_views(entries@) =~= plan_views(e1) + Seq::<PlanView>::empty());
                },
            }
        }
    }
    (step, entries)
}

/// The command a plan entry runs: none for a notice.
pub fn plan_command(action: &PlanAction) -> (r: Option<String>)
    ensures
        match action@ {
            PlanView::Notify(_) => r is None,
            PlanView::Create(_, _, c) => r matches Some(x) && x@ == c,
            PlanView::Delete(_, _, c) => r matches Some(x) && x@ == c,
        },
{
    match action {
        PlanAction::Notify { .. } => None,
        PlanAction::Create { cmd, .. } => Some(cmd.clone()),
        PlanAction::Delete { cmd, .. } => Some(cmd.clone()),
    }
}

/// The spec an instance belongs to, read from its name `<spec>-<8 hex digits>`; a name of
/// another form is taken whole.
pub open spec fn spec_of_instance(id: Seq<char>) -> Seq<char> {
    if id.len() >= 9 && id[id.len() - 9] == '-' {
        id.take(id.len() - 9)
    } else {
        id
    }
}

/// The record of an instance that a plan entry created at time `now`. The spec's hash is
/// not part of a plan entry, so the record has none (and is never taken for an instance
/// of an older version of its spec).
pub open spec fn planned_instance(id: Seq<char>, node: Seq<char>, now: u64) -> InstanceView {
    InstanceView {
        id,
        spec_name: spec_of_instance(id),
        node,
        status: "running"@,
        spec_hash: Seq::empty(),
        created_at: spec_decimal(now as nat),
    }
}

fn instance_spec(id: &str) -> (r: String)
    ensures
        r@ == spec_of_instance(id@),
{
    let cs = chars_of(id);
    let n = cs.len();
    if n >= 9 && cs[n - 9] == '-' {
        let head = slice(&cs, 0, n - 9);
        assert(head@ =~= id@.take(n - 9));
        string_of(&head)
    } else {
        String::from_str(id)
    }
}

/// Records what running a plan entry's command gave (`outcome`), as a pass would: a
/// created instance is recorded as running; a deleted one is removed whatever the
/// command reported. Returns the error a failed command gives.
pub fn record_plan_result(db: &mut StateDB, action: &PlanAction, outcome: Result<bool, String>, now: u64) -> (r:
    Result<(), String>)
    requires
        old(db)@.wf(),
    ensures
        final(db)@.wf(),
        final(db)@.nodes == old(db)@.nodes,
        final(db)@.rollouts == old(db)@.rollouts,
        match action@ {
            PlanView::Notify(_) => final(db)@.instances == old(db)@.instances && r is Ok,
            PlanView::Create(id, node, _) => match outcome {
                Ok(true) => final(db)@.instances == put_instance(old(db)@.instances, planned_instance(id, node, now))
                    && r is Ok,
                Ok(false) => final(db)@.instances == old(db)@.instances && (r matches Err(m) && m@ == "create failed: "@
                    + id),
                Err(e) => final(db)@.instances == old(db)@.instances && (r matches Err(m) && m@ == "create error: "@
                    + e@),
            },
            PlanView::Delete(id, _, _) => final(db)@.instances == without_instance(old(db)@.instances, id) && match outcome {
                Err(e) => r matches Err(m) && m@ == "delete command error for "@ + id + ": "@ + e@,
                Ok(_) => r is Ok,
            },
        },
{
    match action {
        PlanAction::Notify { .. } => Ok(()),
        PlanAction::Create { instance_id, node, .. } => match outcome {
            Ok(true) => {
                let inst = Instance {
                    id: instance_id.clone(),
                    spec_name: instance_spec(instance_id.as_str()),
                    node: node.clone(),
                    status: String::from_str("running"),
                    spec_hash: String::new(),
                    created_at: timestamp(now),
                };
                db.insert_instance(&inst);
                Ok(())
            },
            Ok(false) => Err(String::from_str("create failed: ").concat(instance_id.as_str())),
            Err(e) => Err(String::from_str("create error: ").concat(e.as_str())),
        },
        PlanAction::Delete { instance_id, .. } => {
            db.delete_instance(instance_id.as_str());
            match outcome {
                Err(e) => Err(
                    String::from_str("delete command error for ").concat(instance_id.as_str()).concat(": ").concat(
                        e.as_str(),
                    ),
                ),
                Ok(_) => Ok(()),
            }
        },
    }
}

impl PlanAction {
    /// The line that tells what the entry does.
    pub fn message(&self) -> (r: String)
        ensures
            r@ == match self@ {
                PlanView::Notify(m) => m,
                PlanView::Create(id, node, c) => "create: "@ + id + " on "@ + node + " -> "@ + c,
                PlanView::Delete(id, node, c) => "delete: "@ + id + " on "@ + node + " -> "@ + c,
            },
    {
        match self {
            PlanAction::Notify { message } => message.clone(),
            PlanAction::Create { instance_id, node, cmd } => String::from_str("create: ").concat(instance_id.as_str()).concat(
                " on ",
            ).concat(node.as_str()).concat(" -> ").concat(cmd.as_str()),
            PlanAction::Delete { instance_id, node, cmd } => String::from_str("delete: ").concat(instance_id.as_str()).concat(
                " on ",
            ).concat(node.as_str()).concat(" -> ").concat(cmd.as_str()),
        }
    }
}

} // verus!
