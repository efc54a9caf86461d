//! Reconciliation: converging recorded instances towards the desired specs.
//!
//! The decisions are made here; running the shell commands they call for is left to
//! the caller, which hands each command's result back (see [`Reconciler`]).

use vstd::prelude::*;
use crate::exec::{spec_substitute, substitute};
use crate::scheduler::{instance_name, is_first_least_loaded, lviews, schedule, Scheduler};
use crate::spec::{Instance, InstanceView, Rollout, Spec};
use crate::state::{active_count, iviews, rollout_of, up_node_names, DbView, StateDB};
use crate::text::{chars_of, decimal, spec_decimal, str_eq, string_of, sviews, text_less, text_lt,
    lemma_text_lt_total, lemma_text_lt_transitive};

verus! {

broadcast use vstd::seq_lib::group_seq_properties;

/// A desired spec together with its change-detection hash (or why hashing failed).
#[derive(Debug)]
pub struct SpecEntry {
    pub spec: Spec,
    pub hash: Result<String, String>,
}

/// The creation time recorded on an instance: seconds since the epoch, in decimal.
pub fn timestamp(secs: u64) -> (r: String)
    ensures
        r@ == spec_decimal(secs as nat),
{
    decimal(secs)
}

// ----- which instances count -----

/// An instance that is running or about to be.
pub open spec fn is_live(x: InstanceView) -> bool {
    x.status == "running"@ || x.status == "desired"@
}

/// [`is_live`] as a predicate.
pub open spec fn live() -> spec_fn(InstanceView) -> bool {
    |x: InstanceView| is_live(x)
}

/// An instance built from an older spec (a non-empty hash other than `hash`) and not being deleted.
pub open spec fn stale(hash: Seq<char>) -> spec_fn(InstanceView) -> bool {
    |x: InstanceView| x.spec_hash != hash && x.spec_hash.len() > 0 && x.status != "deleting"@
}

/// An instance built from the spec with hash `hash`.
pub open spec fn built_from(hash: Seq<char>) -> spec_fn(InstanceView) -> bool {
    |x: InstanceView| x.spec_hash == hash
}

/// Which instances to select.
#[derive(Clone, Copy, Debug, PartialEq, Eq, Structural)]
pub enum Selection {
    /// Those that are running or about to be.
    Live,
    /// Those built from an older spec and not being deleted.
    Stale,
    /// Those built from the spec with the given hash.
    BuiltFrom,
}

/// The predicate a selection applies, against spec hash `hash`.
pub open spec fn selection_pred(which: Selection, hash: Seq<char>) -> spec_fn(InstanceView) -> bool {
    match which {
        Selection::Live => live(),
        Selection::Stale => stale(hash),
        Selection::BuiltFrom => built_from(hash),
    }
}

/// The instances of `v` that `which` selects (against spec hash `hash`), in order.
pub fn select_instances(v: &Vec<Instance>, which: Selection, hash: &str) -> (r: Vec<Instance>)
    ensures
        iviews(r@) == iviews(v@).filter(selection_pred(which, hash@)),
{
    let ghost p = selection_pred(which, hash@);
    let mut r: Vec<Instance> = Vec::new();
    let mut i: usize = 0;
    while i < v.len()
        invariant
            p == selection_pred(which, hash@),
            i <= v@.len(),
            iviews(r@) == iviews(v@).take(i as int).filter(p),
        decreases v.len() - i,
    {
        let ghost t = iviews(v@).take(i as int);
        proof {
            assert(iviews(v@).take(i + 1) =~= t.push(v@[i as int]@));
            t.lemma_filter_push(v@[i as int]@, p);
        }
        let x = &v[i];
        let keep = match which {
            Selection::Live => str_eq(x.status.as_str(), "running") || str_eq(x.status.as_str(), "desired"),
            Selection::Stale => !str_eq(x.spec_hash.as_str(), hash) && !x.spec_hash.as_str().is_empty()
                && !str_eq(x.status.as_str(), "deleting"),
            Selection::BuiltFrom => str_eq(x.spec_hash.as_str(), hash),
        };
        let ghost r0 = r@;
        if keep {
            let d = x.duplicate();
            r.push(d);
            assert(iviews(r@) =~= iviews(r0).push(d@));
        }
        i += 1;
    }
    assert(iviews(v@).take(i as int) =~= iviews(v@));
    r
}

// ----- health -----

/// The command that checks an instance, or `None` when no health template is set
/// (then the recorded status decides).
pub fn health_command(inst: &Instance, exec_health_template: &str) -> (r: Option<String>)
    ensures
        exec_health_template@.len() == 0 ==> r is None,
        exec_health_template@.len() > 0 ==> (r matches Some(c) && c@ == spec_substitute(
            exec_health_template@,
            inst.id@,
            inst.node@,
        )),
{
    if exec_health_template.is_empty() {
        None
    } else {
        Some(substitute(exec_health_template, inst.id.as_str(), inst.node.as_str()))
    }
}

/// Whether an instance counts as healthy: without a health template, when it is recorded as
/// running; otherwise when its health command ran and succeeded.
pub fn check_health(inst: &Instance, exec_health_template: &str, command_result: &Result<bool, String>) -> (r: bool)
    ensures
        exec_health_template@.len() == 0 ==> r == (inst.status@ == "running"@),
        exec_health_template@.len() > 0 ==> r == (command_result == &Ok::<bool, String>(true)),
{
    if exec_health_template.is_empty() {
        str_eq(inst.status.as_str(), "running")
    } else {
        match command_result {
            Ok(b) => *b,
            Err(_) => false,
        }
    }
}

// ----- replica count -----

/// What a spec's instances need once the healthy ones are counted.
#[derive(Clone, Copy, Debug, PartialEq, Eq, Structural)]
pub enum ReplicaPlan {
    /// Create this many instances.
    Create(u32),
    /// Delete this many instances.
    Delete(usize),
    /// The healthy count is the desired one.
    Keep,
}

/// Create the missing instances when fewer than `desired` are healthy, delete the excess
/// when more are, otherwise keep them.
pub fn replica_plan(healthy: usize, desired: u32) -> (r: ReplicaPlan)
    ensures
        healthy < desired ==> r == ReplicaPlan::Create((desired - healthy) as u32),
        healthy > desired ==> r == ReplicaPlan::Delete((healthy - desired) as usize),
        healthy == desired ==> r == ReplicaPlan::Keep,
{
    if healthy < desired as usize {
        ReplicaPlan::Create(desired - healthy as u32)
    } else if healthy > desired as usize {
        ReplicaPlan::Delete(healthy - desired as usize)
    } else {
        ReplicaPlan::Keep
    }
}

// ----- excess instances -----

/// The instances of `r` whose flag in `f` equals `want`, in order.
pub open spec fn flagged(r: Seq<InstanceView>, f: Seq<bool>, want: bool) -> Seq<InstanceView>
    decreases r.len(),
{
    if r.len() == 0 {
        Seq::empty()
    } else if f[r.len() - 1] == want {
        flagged(r.drop_last(), f, want).push(r.last())
    } else {
        flagged(r.drop_last(), f, want)
    }
}

/// `a` is an earlier creation time than `b`. Creation times are seconds in decimal, so
/// a shorter one is earlier, and among those of equal length the one that sorts first.
pub open spec fn earlier(a: Seq<char>, b: Seq<char>) -> bool {
    a.len() < b.len() || (a.len() == b.len() && text_lt(a, b))
}

/// The position of the oldest instance of `t`: the first among the equally old.
pub open spec fn oldest_index(t: Seq<InstanceView>) -> int
    decreases t.len(),
{
    if t.len() <= 1 {
        0
    } else {
        let j = oldest_index(t.drop_last());
        if earlier(t.last().created_at, t[j].created_at) {
            t.len() - 1
        } else {
            j
        }
    }
}

/// The position of the oldest instance of a non-empty sequence lies within it.
pub proof fn lemma_oldest_index_range(t: Seq<InstanceView>)
    ensures
        t.len() > 0 ==> 0 <= oldest_index(t) < t.len(),
    decreases t.len(),
{
    if t.len() > 1 {
        lemma_oldest_index_range(t.drop_last());
    }
}

/// The instances of `t`, oldest first; equally old ones keep their order.
pub open spec fn oldest_first(t: Seq<InstanceView>) -> Seq<InstanceView>
    decreases t.len(),
{
    if t.len() == 0 {
        Seq::empty()
    } else {
        proof {
            lemma_oldest_index_range(t);
        }
        let i = oldest_index(t);
        seq![t[i]] + oldest_first(t.remove(i))
    }
}

pub(crate) proof fn lemma_oldest_first_len(t: Seq<InstanceView>)
    ensures
        oldest_first(t).len() == t.len(),
    decreases t.len(),
{
    if t.len() > 0 {
        lemma_oldest_index_range(t);
        lemma_oldest_first_len(t.remove(oldest_index(t)));
    }
}

/// Which `excess` live instances to delete: unhealthy ones first, then healthy ones,
/// each group oldest first.
pub open spec fn excess_choice(r: Seq<InstanceView>, healthy: Seq<bool>, excess: nat) -> Seq<InstanceView> {
    (oldest_first(flagged(r, healthy, false)) + oldest_first(flagged(r, healthy, true))).take(excess as int)
}

fn created_earlier(a: &String, b: &String) -> (r: bool)
    ensures
        r == earlier(a@, b@),
{
    let ca = chars_of(a.as_str());
    let cb = chars_of(b.as_str());
    if ca.len() != cb.len() {
        ca.len() < cb.len()
    } else {
        text_less(&ca, &cb)
    }
}

fn oldest_position(v: &Vec<Instance>) -> (i: usize)
    requires
        v.len() > 0,
    ensures
        i as int == oldest_index(iviews(v@)),
        i < v.len(),
{
    let mut best: usize = 0;
    let mut k: usize = 1;
    while k < v.len()
        invariant
            1 <= k <= v@.len(),
            best < k,
            best as int == oldest_index(iviews(v@).take(k as int)),
        decreases v.len() - k,
    {
        let ghost t = iviews(v@).take(k + 1);
        assert(t.drop_last() =~= iviews(v@).take(k as int));
        if created_earlier(&v[k].created_at, &v[best].created_at) {
            best = k;
        }
        k += 1;
    }
    assert(iviews(v@).take(k as int) =~= iviews(v@));
    best
}

fn order_oldest_first(v: Vec<Instance>) -> (out: Vec<Instance>)
    ensures
        iviews(out@) == oldest_first(iviews(v@)),
{
    let ghost all = iviews(v@);
    let mut rest = v;
    let mut out: Vec<Instance> = Vec::new();
    assert(iviews(out@) + oldest_first(iviews(rest@)) =~= oldest_first(all));
    while rest.len() > 0
        invariant
            iviews(out@) + oldest_first(iviews(rest@)) == oldest_first(all),
        decreases rest.len(),
    {
        let ghost t = iviews(rest@);
        let ghost o0 = iviews(out@);
        let i = oldest_position(&rest);
        let x = rest.remove(i);
        proof {
            lemma_oldest_index_range(t);
            assert(iviews(rest@) =~= t.remove(i as int));
            assert(oldest_first(t) == seq![t[i as int]] + oldest_first(t.remove(i as int)));
        }
        out.push(x);
        assert(iviews(out@) =~= o0.push(x@));
        assert(iviews(out@) + oldest_first(iviews(rest@)) =~= o0 + oldest_first(t));
    }
    assert(iviews(out@) + oldest_first(iviews(rest@)) =~= iviews(out@));
    out
}

proof fn lemma_flagged_len(r: Seq<InstanceView>, f: Seq<bool>)
    ensures
        flagged(r, f, false).len() + flagged(r, f, true).len() == r.len(),
    decreases r.len(),
{
    if r.len() > 0 {
        lemma_flagged_len(r.drop_last(), f);
    }
}

fn flagged_exec(r: &Vec<Instance>, f: &Vec<bool>, want: bool) -> (out: Vec<Instance>)
    requires
        r.len() == f.len(),
    ensures
        iviews(out@) == flagged(iviews(r@), f@, want),
{
    let mut out: Vec<Instance> = Vec::new();
    let mut i: usize = 0;
    while i < r.len()
        invariant
            r.len() == f.len(),
            i <= r@.len(),
            iviews(out@) == flagged(iviews(r@).take(i as int), f@, want),
        decreases r.len() - i,
    {
        let ghost t = iviews(r@).take(i + 1);
        assert(t.drop_last() =~= iviews(r@).take(i as int));
        let ghost o0 = out@;
        if f[i] == want {
            let d = r[i].duplicate();
            out.push(d);
            assert(iviews(out@) =~= iviews(o0).push(d@));
        }
        i += 1;
    }
    assert(iviews(r@).take(i as int) =~= iviews(r@));
    out
}

/// Picks `excess` live instances to delete: the unhealthy ones first, then healthy ones,
/// each group oldest first (by creation time; equally old ones in record order).
pub fn choose_excess(running: &Vec<Instance>, healthy: &Vec<bool>, excess: usize) -> (r: Vec<Instance>)
    requires
        running.len() == healthy.len(),
        excess <= running.len(),
    ensures
        iviews(r@) == excess_choice(iviews(running@), healthy@, excess as nat),
        r.len() == excess,
{
    let mut all = order_oldest_first(flagged_exec(running, healthy, false));
    let mut rest = order_oldest_first(flagged_exec(running, healthy, true));
    proof {
        lemma_flagged_len(iviews(running@), healthy@);
        lemma_oldest_first_len(flagged(iviews(running@), healthy@, false));
        lemma_oldest_first_len(flagged(iviews(running@), healthy@, true));
    }
    let ghost a0 = iviews(all@);
    let ghost b0 = iviews(rest@);
    all.append(&mut rest);
    assert(iviews(all@) =~= a0 + b0);
    all.truncate(excess);
    assert(iviews(all@) =~= (a0 + b0).take(excess as int));
    all
}

// ----- orphaned instances -----

/// A spec that no longer exists, and its instances.
#[derive(Debug)]
pub struct OrphanGroup {
    pub spec_name: String,
    pub instances: Vec<Instance>,
}

/// The names of the desired specs.
pub open spec fn spec_names(specs: Seq<SpecEntry>) -> Seq<Seq<char>> {
    specs.map_values(|e: SpecEntry| e.spec.name@)
}

/// An instance whose spec is not among `names`.
pub open spec fn is_orphan(names: Seq<Seq<char>>, x: InstanceView) -> bool {
    !names.contains(x.spec_name)
}

/// The instances recorded for spec `name`.
pub open spec fn of_spec(name: Seq<char>) -> spec_fn(InstanceView) -> bool {
    |x: InstanceView| x.spec_name == name
}

/// `groups` holds one group per spec name that orphaned instances carry, in ascending name
/// order, each with that spec's instances in record order.
pub open spec fn are_orphan_groups(
    instances: Seq<InstanceView>,
    names: Seq<Seq<char>>,
    group_names: Seq<Seq<char>>,
    group_members: Seq<Seq<InstanceView>>,
) -> bool {
    &&& group_names.len() == group_members.len()
    &&& forall|a: int, b: int| 0 <= a < b < group_names.len() ==> text_lt(group_names[a], group_names[b])
    &&& forall|g: int| 0 <= g < group_names.len() ==> !names.contains(#[trigger] group_names[g])
    &&& forall|g: int| 0 <= g < group_names.len() ==> #[trigger] group_members[g] == instances.filter(of_spec(group_names[g]))
    &&& forall|g: int| 0 <= g < group_names.len() ==> group_members[g].len() > 0
    &&& forall|i: int| 0 <= i < instances.len() && is_orphan(names, #[trigger] instances[i])
        ==> group_names.contains(instances[i].spec_name)
}

/// The spec names of the groups, in order.
pub open spec fn group_names_of(groups: Seq<OrphanGroup>) -> Seq<Seq<char>> {
    groups.map_values(|g: OrphanGroup| g.spec_name@)
}

/// The instances of each group, in order.
pub open spec fn group_members_of(groups: Seq<OrphanGroup>) -> Seq<Seq<InstanceView>> {
    groups.map_values(|g: OrphanGroup| iviews(g.instances@))
}

fn names_contain(specs: &[SpecEntry], name: &str) -> (r: bool)
    ensures
        r == spec_names(specs@).contains(name@),
{
    let mut i: usize = 0;
    while i < specs.len()
        invariant
            i <= specs@.len(),
            forall|k: int| 0 <= k < i ==> specs@[k].spec.name@ != name@,
        decreases specs.len() - i,
    {
        if str_eq(specs[i].spec.name.as_str(), name) {
            assert(spec_names(specs@)[i as int] == name@);
            return true;
        }
        i += 1;
    }
    proof {
        if spec_names(specs@).contains(name@) {
            let k = choose|k: int| 0 <= k < spec_names(specs@).len() && spec_names(specs@)[k] == name@;
            assert(specs@[k].spec.name@ == name@);
        }
    }
    false
}

/// Some instance carries spec name `n`.
pub open spec fn carried(iv: Seq<InstanceView>, n: Seq<char>) -> bool {
    exists|k: int| 0 <= k < iv.len() && #[trigger] iv[k].spec_name == n
}

proof fn lemma_insert_contains<A>(s: Seq<A>, pos: int, x: A, y: A)
    requires
        0 <= pos <= s.len(),
    ensures
        s.contains(y) ==> s.insert(pos, x).contains(y),
        s.insert(pos, x).contains(x),
{
    let t = s.insert(pos, x);
    assert(t[pos] == x);
    if s.contains(y) {
        let w = choose|w: int| 0 <= w < s.len() && s[w] == y;
        if w < pos {
            assert(t[w] == y);
        } else {
            assert(t[w + 1] == y);
        }
    }
}

/// The distinct spec names carried by orphaned instances, in ascending order.
fn orphan_names(instances: &Vec<Instance>, specs: &[SpecEntry]) -> (found: Vec<Vec<char>>)
    ensures
        forall|a: int, b: int| 0 <= a < b < found@.len() ==> text_lt(found@[a]@, found@[b]@),
        forall|g: int| 0 <= g < found@.len() ==> !spec_names(specs@).contains(#[trigger] found@[g]@),
        forall|g: int| 0 <= g < found@.len() ==> carried(iviews(instances@), #[trigger] found@[g]@),
        forall|k: int| 0 <= k < instances@.len() && is_orphan(spec_names(specs@), #[trigger] iviews(instances@)[k])
            ==> found@.map_values(|v: Vec<char>| v@).contains(instances@[k].spec_name@),
{
    let ghost iv = iviews(instances@);
    let ghost names = spec_names(specs@);
    let mut found: Vec<Vec<char>> = Vec::new();
    let ghost mut fv: Seq<Seq<char>> = Seq::empty();
    let mut i: usize = 0;
    while i < instances.len()
        invariant
            iv == iviews(instances@),
            names == spec_names(specs@),
            i <= instances@.len(),
            fv == found@.map_values(|v: Vec<char>| v@),
            forall|a: int, b: int| 0 <= a < b < fv.len() ==> text_lt(fv[a], fv[b]),
            forall|g: int| 0 <= g < fv.len() ==> !names.contains(#[trigger] fv[g]),
            forall|g: int| 0 <= g < fv.len() ==> carried(iv, #[trigger] fv[g]),
            forall|k: int| 0 <= k < i && is_orphan(names, #[trigger] iv[k]) ==> fv.contains(iv[k].spec_name),
        decreases instances.len() - i,
    {
        let nm = chars_of(instances[i].spec_name.as_str());
        assert(iv[i as int].spec_name == nm@);
        if !names_contain(specs, instances[i].spec_name.as_str()) {
            let mut pos: usize = 0;
            while pos < found.len() && text_less(&found[pos], &nm)
                invariant
                    fv == found@.map_values(|v: Vec<char>| v@),
                    pos <= found@.len(),
                    forall|a: int| 0 <= a < pos ==> text_lt(fv[a], nm@),
                decreases found.len() - pos,
            {
                pos += 1;
            }
            let present = pos < found.len() && chars_eq(&found[pos], &nm);
            if !present {
                proof {
                    assert forall|a: int| pos <= a < fv.len() implies text_lt(nm@, fv[a]) by {
                        lemma_text_lt_total(fv[pos as int], nm@);
                        if a > pos {
                            lemma_text_lt_transitive(nm@, fv[pos as int], fv[a]);
                        }
                    }
                }
                let ghost f0 = fv;
                found.insert(pos, nm);
                proof {
                    fv = f0.insert(pos as int, nm@);
                    assert(fv =~= found@.map_values(|v: Vec<char>| v@));
                    assert forall|a: int, b: int| 0 <= a < b < fv.len() implies text_lt(fv[a], fv[b]) by {
                        if b < pos {
                        } else if b == pos {
                        } else if a < pos {
                            assert(fv[b] == f0[b - 1]);
                            lemma_text_lt_transitive(fv[a], nm@, fv[b]);
                        } else if a == pos {
                            assert(fv[b] == f0[b - 1]);
                        } else {
                            assert(fv[a] == f0[a - 1]);
                            assert(fv[b] == f0[b - 1]);
                        }
                    }
                    assert forall|g: int| 0 <= g < fv.len() implies !names.contains(#[trigger] fv[g]) by {
                        if g < pos {
                            assert(fv[g] == f0[g]);
                        } else if g > pos {
                            assert(fv[g] == f0[g - 1]);
                        }
                    }
                    assert forall|g: int| 0 <= g < fv.len() implies carried(iv, #[trigger] fv[g]) by {
                        if g < pos {
                            assert(fv[g] == f0[g]);
                        } else if g > pos {
                            assert(fv[g] == f0[g - 1]);
                        } else {
                            assert(iv[i as int].spec_name == fv[g]);
                        }
                    }
                    assert forall|k: int| 0 <= k < i + 1 && is_orphan(names, #[trigger] iv[k]) implies fv.contains(iv[k].spec_name) by {
                        lemma_insert_contains(f0, pos as int, nm@, iv[k].spec_name);
                    }
                }
            } else {
                proof {
                    assert(fv[pos as int] == nm@);
                    assert forall|k: int| 0 <= k < i + 1 && is_orphan(names, #[trigger] iv[k]) implies fv.contains(iv[k].spec_name) by {
                        if k == i {
                            assert(fv[pos as int] == iv[k].spec_name);
                        }
                    }
                }
            }
        }
        i += 1;
    }
    proof {
        assert forall|a: int, b: int| 0 <= a < b < found@.len() implies text_lt(found@[a]@, found@[b]@) by {
            assert(fv[a] == found@[a]@ && fv[b] == found@[b]@);
        }
        assert forall|g: int| 0 <= g < found@.len() implies !spec_names(specs@).contains(#[trigger] found@[g]@) by {
            assert(fv[g] == found@[g]@);
        }
        assert forall|g: int| 0 <= g < found@.len() implies carried(iviews(instances@), #[trigger] found@[g]@) by {
            assert(fv[g] == found@[g]@);
        }
    }
    found
}

/// Groups the instances whose spec is no longer desired, by spec name in ascending order.
pub fn orphan_groups(instances: &Vec<Instance>, specs: &[SpecEntry]) -> (groups: Vec<OrphanGroup>)
    ensures
        are_orphan_groups(iviews(instances@), spec_names(specs@), group_names_of(groups@), group_members_of(groups@)),
{
    let ghost iv = iviews(instances@);
    let found = orphan_names(instances, specs);
    let mut groups: Vec<OrphanGroup> = Vec::new();
    let mut g: usize = 0;
    while g < found.len()
        invariant
            iv == iviews(instances@),
            g <= found@.len(),
            groups@.len() == g,
            forall|a: int| 0 <= a < g ==> #[trigger] groups@[a].spec_name@ == found@[a]@,
            forall|a: int| 0 <= a < g ==> #[trigger] iviews(groups@[a].instances@) == iv.filter(of_spec(found@[a]@)),
        decreases found.len() - g,
    {
        let name = string_of(&found[g]);
        let members = members_of(instances, name.as_str());
        let ghost g0 = groups@;
        let ghost mv = iviews(members@);
        let ghost nv = name@;
        assert(nv == found@[g as int]@);
        groups.push(OrphanGroup { spec_name: name, instances: members });
        proof {
            assert(iviews(groups@[g as int].instances@) == mv);
            assert(groups@[g as int].spec_name@ == nv);
            assert forall|a: int| 0 <= a < g + 1 implies #[trigger] groups@[a].spec_name@ == found@[a]@ by {
                if a < g {
                    assert(groups@[a] == g0[a]);
                    assert(g0[a].spec_name@ == found@[a]@);
                } else {
                    assert(a == g);
                    assert(groups@[a].spec_name@ == nv);
                }
            }
            assert forall|a: int| 0 <= a < g + 1 implies #[trigger] iviews(groups@[a].instances@) == iv.filter(of_spec(found@[a]@)) by {
                if a < g {
                    assert(groups@[a] == g0[a]);
                }
            }
        }
        g += 1;
    }
    proof {
        let gn = group_names_of(groups@);
        let gm = group_members_of(groups@);
        assert forall|a: int| 0 <= a < gn.len() implies gn[a] == found@[a]@ by {}
        assert forall|a: int| 0 <= a < gn.len() implies gm[a].len() > 0 by {
            assert(carried(iv, found@[a]@));
            let k = choose|k: int| 0 <= k < iv.len() && #[trigger] iv[k].spec_name == found@[a]@;
            iv.lemma_filter_contains(of_spec(found@[a]@), k);
        }
        assert forall|a: int| 0 <= a < gn.len() implies !spec_names(specs@).contains(#[trigger] gn[a]) by {
            assert(gn[a] == found@[a]@);
        }
        assert forall|k: int| 0 <= k < iv.len() && is_orphan(spec_names(specs@), #[trigger] iv[k])
            implies gn.contains(iv[k].spec_name) by {
            let fvs = found@.map_values(|v: Vec<char>| v@);
            assert(fvs.contains(iv[k].spec_name));
            let a = choose|a: int| 0 <= a < fvs.len() && fvs[a] == iv[k].spec_name;
            assert(gn[a] == iv[k].spec_name);
        }
    }
    groups
}

fn chars_eq(a: &Vec<char>, b: &Vec<char>) -> (r: bool)
    ensures
        r == (a@ == b@),
{
    if a.len() != b.len() {
        return false;
    }
    let mut i: usize = 0;
    while i < a.len()
        invariant
            a@.len() == b@.len(),
            i <= a.len(),
            forall|j: int| 0 <= j < i ==> a@[j] == b@[j],
        decreases a.len() - i,
    {
        if a[i] != b[i] {
            return false;
        }
        i += 1;
    }
    assert(a@ =~= b@);
    true
}

fn members_of(instances: &Vec<Instance>, name: &str) -> (r: Vec<Instance>)
    ensures
        iviews(r@) == iviews(instances@).filter(of_spec(name@)),
{
    let mut r: Vec<Instance> = Vec::new();
    let mut i: usize = 0;
    while i < instances.len()
        invariant
            i <= instances@.len(),
            iviews(r@) == iviews(instances@).take(i as int).filter(of_spec(name@)),
        decreases instances.len() - i,
    {
        let ghost t = iviews(instances@).take(i as int);
        proof {
            assert(iviews(instances@).take(i + 1) =~= t.push(instances@[i as int]@));
            t.lemma_filter_push(instances@[i as int]@, of_spec(name@));
        }
        let ghost r0 = r@;
        if str_eq(instances[i].spec_name.as_str(), name) {
            let d = instances[i].duplicate();
            r.push(d);
            assert(iviews(r@) =~= iviews(r0).push(d@));
        }
        i += 1;
    }
    assert(iviews(instances@).take(i as int) =~= iviews(instances@));
    r
}

// ----- placing a new instance -----

/// The nodes new instances may go to: those recorded as up, or all configured nodes when none is.
pub open spec fn available_nodes(db: DbView, nodes: Seq<Seq<char>>) -> Seq<Seq<char>> {
    if up_node_names(db.nodes).len() == 0 {
        nodes
    } else {
        up_node_names(db.nodes)
    }
}

/// A count as the load table holds it: counts beyond `u32` are read as 0.
pub open spec fn count_or_zero(c: nat) -> u32 {
    if c <= u32::MAX {
        c as u32
    } else {
        0
    }
}

/// Each available node with the number of its instances that are not being deleted.
pub open spec fn load_table(db: DbView, avail: Seq<Seq<char>>) -> Seq<(Seq<char>, u32)> {
    Seq::new(avail.len(), |i: int| (avail[i], count_or_zero(active_count(db.instances, avail[i]))))
}

/// `inst` is the record of the `next_index`-th instance of `spec_name`, placed on the first
/// least-loaded available node, waiting to be created.
pub open spec fn is_new_placement(
    db: DbView,
    nodes: Seq<Seq<char>>,
    spec_name: Seq<char>,
    hash: Seq<char>,
    next_index: u32,
    now: u64,
    inst: InstanceView,
) -> bool {
    let avail = available_nodes(db, nodes);
    &&& exists|j: int| is_first_least_loaded(avail, load_table(db, avail), j) && inst.node == avail[j]
    &&& inst.id == instance_name(spec_name, next_index)
    &&& inst.spec_name == spec_name
    &&& inst.status == "desired"@
    &&& inst.spec_hash == hash
    &&& inst.created_at == spec_decimal(now as nat)
}

fn copy_strings(v: &[String]) -> (r: Vec<String>)
    ensures
        sviews(r@) == sviews(v@),
{
    let mut r: Vec<String> = Vec::new();
    let mut i: usize = 0;
    while i < v.len()
        invariant
            i <= v@.len(),
            sviews(r@) == sviews(v@).take(i as int),
        decreases v.len() - i,
    {
        let ghost r0 = r@;
        let x = v[i].clone();
        r.push(x);
        assert(sviews(r@) =~= sviews(r0).push(x@));
        i += 1;
    }
    assert(sviews(v@).take(i as int) =~= sviews(v@));
    r
}

/// Chooses the node for the `next_index`-th instance of a spec and builds its record.
/// Fails with `no available nodes` when there is no node to choose from.
pub fn schedule_instance(
    db: &StateDB,
    spec: &Spec,
    current_hash: &str,
    nodes: &[String],
    scheduler: &Scheduler,
    next_index: u32,
    now: u64,
) -> (r: Result<Instance, String>)
    ensures
        r is Err <==> available_nodes(db@, sviews(nodes@)).len() == 0,
        r matches Err(e) ==> e@ == "no available nodes"@,
        r matches Ok(inst) ==> is_new_placement(db@, sviews(nodes@), spec.name@, current_hash@, next_index, now, inst@),
{
    let up = db.get_up_nodes();
    let available = if up.len() == 0 { copy_strings(nodes) } else { up };
    let ghost avail = available_nodes(db@, sviews(nodes@));
    assert(sviews(available@) == avail);
    let mut loads: Vec<(String, u32)> = Vec::new();
    let mut i: usize = 0;
    while i < available.len()
        invariant
            sviews(available@) == avail,
            i <= available@.len(),
            lviews(loads@) == load_table(db@, avail).take(i as int),
        decreases available.len() - i,
    {
        let count = match db.instance_count_on_node(available[i].as_str()) {
            Some(c) => c,
            None => 0,
        };
        let ghost l0 = loads@;
        let pair = (available[i].clone(), count);
        loads.push(pair);
        assert(lviews(loads@) =~= lviews(l0).push((pair.0@, pair.1)));
        i += 1;
        assert(lviews(loads@) =~= load_table(db@, avail).take(i as int));
    }
    assert(load_table(db@, avail).take(i as int) =~= load_table(db@, avail));
    match schedule(scheduler, available.as_slice(), loads.as_slice(), spec.name.as_str(), next_index) {
        Some(result) => {
            let inst = Instance {
                id: result.instance_id,
                spec_name: spec.name.clone(),
                node: result.node,
                status: String::from_str("desired"),
                spec_hash: String::from_str(current_hash),
                created_at: timestamp(now),
            };
            proof {
                let j = choose|j: int| is_first_least_loaded(sviews(available@), lviews(loads@), j) && inst.node@ == available@[j]@;
                assert(is_first_least_loaded(avail, load_table(db@, avail), j) && inst.node@ == avail[j]);
            }
            Ok(inst)
        },
        None => Err(String::from_str("no available nodes")),
    }
}

// ----- garbage collection -----

/// Every instance belongs to one of the named specs.
pub open spec fn no_orphans(s: Seq<InstanceView>, names: Seq<Seq<char>>) -> bool {
    forall|k: int| 0 <= k < s.len() ==> names.contains(#[trigger] s[k].spec_name)
}

proof fn lemma_no_orphans_without(s: Seq<InstanceView>, id: Seq<char>, names: Seq<Seq<char>>)
    requires
        no_orphans(s, names),
    ensures
        no_orphans(crate::state::without_instance(s, id), names),
{
    let f = crate::state::without_instance(s, id);
    assert forall|k: int| 0 <= k < f.len() implies names.contains(#[trigger] f[k].spec_name) by {
        assert(f.contains(f[k]));
        s.lemma_filter_contains_rev(crate::state::instance_id_is_not(id), f[k]);
    }
}

proof fn lemma_no_orphans_put(s: Seq<InstanceView>, inst: InstanceView, names: Seq<Seq<char>>)
    requires
        no_orphans(s, names),
        names.contains(inst.spec_name),
    ensures
        no_orphans(crate::state::put_instance(s, inst), names),
{
    lemma_no_orphans_without(s, inst.id, names);
}

// ----- the reconciliation pass -----

/// What a reconciliation pass asks of its caller next.
#[derive(Debug)]
pub enum Step {
    /// Run this shell command and hand its result to the next call.
    Run(String),
    /// Nothing to run; call again.
    Continue,
    /// The pass is over.
    Finished,
}

/// Where a reconciliation pass stands.
#[derive(Clone, Copy, Debug, PartialEq, Eq, Structural)]
pub enum Stage {
    Start,
    GcNext,
    GcWait,
    GcRollouts,
    SpecStart,
    HealthNext,
    HealthWait,
    AfterHealth,
    CreateNext,
    CreateWait,
    DeleteNext,
    DeleteWait,
    RolloutPhase,
    RolloutCreateWait,
    DrainWait,
    Done,
}

/// One reconciliation pass over the desired specs, run one decision at a time.
///
/// The pass first registers the configured nodes and deletes the instances of specs that
/// are no longer desired. Then, spec by spec in order: it checks the health of the live
/// instances; if instances built from an older version of the spec remain, it advances
/// that spec's rollout (create the new instances one per pass, wait until enough of them
/// are healthy, drain the old ones one per pass, then finish); otherwise it creates
/// instances until the healthy count reaches the desired replicas, or deletes the excess,
/// unhealthy instances first, then the oldest. Every decision is logged as an action line.
pub struct Reconciler {
    db: StateDB,
    specs: Vec<SpecEntry>,
    nodes: Vec<String>,
    scheduler: Scheduler,
    create_template: String,
    delete_template: String,
    health_template: String,
    actions: Vec<String>,
    stage: Stage,
    groups: Vec<OrphanGroup>,
    group: usize,
    member: usize,
    spec_index: usize,
    current_hash: String,
    instances: Vec<Instance>,
    running: Vec<Instance>,
    healthy: Vec<bool>,
    checking_new: bool,
    new_instances: Vec<Instance>,
    healthy_new: Vec<bool>,
    stale: Vec<Instance>,
    rollout: Option<Rollout>,
    probe: usize,
    pending: Option<Instance>,
    creates_left: u32,
    next_index: u32,
    doomed: Vec<Instance>,
    doomed_index: usize,
}

/// Starts a reconciliation pass over `db` (see [`Reconciler`]).
pub fn reconcile(
    db: StateDB,
    specs: Vec<SpecEntry>,
    nodes: Vec<String>,
    scheduler: Scheduler,
    exec_create_template: &str,
    exec_delete_template: &str,
    exec_health_template: &str,
) -> (r: Reconciler)
    requires
        db@.wf(),
    ensures
        r.inv(),
        r.db_view() == db@,
        r.actions_view() == Seq::<Seq<char>>::empty(),
        !r.awaiting(),
        !r.finished(),
        r.specs_view() == specs@,
        r.nodes_view() == sviews(nodes@),
        r.create_template_view() == exec_create_template@,
        r.delete_template_view() == exec_delete_template@,
        r.health_template_view() == exec_health_template@,
        !r.started(),
{
    let r = Reconciler {
        db,
        specs,
        nodes,
        scheduler,
        create_template: String::from_str(exec_create_template),
        delete_template: String::from_str(exec_delete_template),
        health_template: String::from_str(exec_health_template),
        actions: Vec::new(),
        stage: Stage::Start,
        groups: Vec::new(),
        group: 0,
        member: 0,
        spec_index: 0,
        current_hash: String::new(),
        instances: Vec::new(),
        running: Vec::new(),
        healthy: Vec::new(),
        checking_new: false,
        new_instances: Vec::new(),
        healthy_new: Vec::new(),
        stale: Vec::new(),
        rollout: None,
        probe: 0,
        pending: None,
        creates_left: 0,
        next_index: 0,
        doomed: Vec::new(),
        doomed_index: 0,
    };
    assert(r.actions_view() =~= Seq::<Seq<char>>::empty());
    r
}

/// Number of `true` flags.
pub open spec fn count_true(f: Seq<bool>) -> nat
    decreases f.len(),
{
    if f.len() == 0 {
        0
    } else {
        count_true(f.drop_last()) + if f.last() { 1nat } else { 0nat }
    }
}

fn count_flags(f: &Vec<bool>) -> (n: usize)
    ensures
        n as nat == count_true(f@),
        n <= f.len(),
{
    let mut n: usize = 0;
    let mut i: usize = 0;
    while i < f.len()
        invariant
            i <= f@.len(),
            n as nat == count_true(f@.take(i as int)),
            n <= i,
        decreases f.len() - i,
    {
        assert(f@.take(i + 1).drop_last() =~= f@.take(i as int));
        if f[i] {
            n += 1;
        }
        i += 1;
    }
    assert(f@.take(i as int) =~= f@);
    n
}

proof fn lemma_rollout_of_name(rs: Seq<crate::spec::RolloutView>, name: Seq<char>)
    ensures
        crate::state::rollout_of(rs, name) matches Some(x) ==> x.spec_name == name,
    decreases rs.len(),
{
    if rs.len() > 0 {
        lemma_rollout_of_name(rs.drop_last(), name);
    }
}

impl Reconciler {
    /// The record as it stands.
    pub closed spec fn db_view(&self) -> DbView {
        self.db@
    }

    /// The action lines logged so far.
    pub closed spec fn actions_view(&self) -> Seq<Seq<char>> {
        sviews(self.actions@)
    }

    /// The desired specs of this pass.
    pub closed spec fn specs_view(&self) -> Seq<SpecEntry> {
        self.specs@
    }

    /// The configured nodes of this pass.
    pub closed spec fn nodes_view(&self) -> Seq<Seq<char>> {
        sviews(self.nodes@)
    }

    /// The pass is waiting for the result of the command it last asked for.
    pub open spec fn awaiting(&self) -> bool {
        match self.stage_now() {
            Stage::GcWait | Stage::HealthWait | Stage::CreateWait | Stage::DeleteWait
            | Stage::RolloutCreateWait | Stage::DrainWait => true,
            _ => false,
        }
    }

    /// The pass is over.
    pub closed spec fn finished(&self) -> bool {
        self.stage is Done
    }

    closed spec fn in_spec(&self) -> bool {
        self.spec_index < self.specs@.len()
    }

    closed spec fn rollout_matches(&self) -> bool {
        &&& self.rollout matches Some(r)
        &&& crate::state::rollout_of(self.db@.rollouts, self.specs@[self.spec_index as int].spec.name@) == Some(r@)
    }

    closed spec fn probe_ok(&self) -> bool {
        if self.checking_new {
            &&& self.probe <= self.new_instances@.len()
            &&& self.healthy_new@.len() == self.probe
            &&& self.rollout_matches()
        } else {
            &&& self.probe <= self.running@.len()
            &&& self.healthy@.len() == self.probe
        }
    }

    /// An orphaned instance whose deletion is still ahead: it is member `m` of group `g`,
    /// at or after the current position.
    closed spec fn gc_pending(&self, x: InstanceView) -> bool {
        exists|g: int, m: int|
            #![trigger self.groups@[g].instances@[m]]
            self.group <= g < self.groups@.len() && 0 <= m < self.groups@[g].instances@.len() && (g
                == self.group ==> m >= self.member) && self.groups@[g].instances@[m]@ == x
    }

    closed spec fn gc_ok(&self) -> bool {
        forall|k: int| 0 <= k < self.db@.instances.len() && is_orphan(spec_names(self.specs@), #[trigger] self.db@.instances[k])
            ==> self.gc_pending(self.db@.instances[k])
    }

    /// The command template that creates an instance.
    pub closed spec fn create_template_view(&self) -> Seq<char> {
        self.create_template@
    }

    /// The command template that deletes an instance.
    pub closed spec fn delete_template_view(&self) -> Seq<char> {
        self.delete_template@
    }

    /// The command template that checks an instance's health.
    pub closed spec fn health_template_view(&self) -> Seq<char> {
        self.health_template@
    }

    /// Where the pass stands.
    pub closed spec fn stage_now(&self) -> Stage {
        self.stage
    }

    /// The position of the spec being reconciled among the desired specs.
    pub closed spec fn spec_position(&self) -> usize {
        self.spec_index
    }

    /// The orphan groups found when the pass began.
    pub closed spec fn groups_seq(&self) -> Seq<OrphanGroup> {
        self.groups@
    }

    /// The orphan group being cleaned up.
    pub closed spec fn group_position(&self) -> usize {
        self.group
    }

    /// The member of that group being deleted.
    pub closed spec fn member_position(&self) -> usize {
        self.member
    }

    /// The hash of the spec being reconciled.
    pub closed spec fn current_hash_view(&self) -> Seq<char> {
        self.current_hash@
    }

    /// The recorded instances of the spec being reconciled.
    pub closed spec fn instances_seq(&self) -> Seq<Instance> {
        self.instances@
    }

    /// Those of them that are running or about to be.
    pub closed spec fn running_seq(&self) -> Seq<Instance> {
        self.running@
    }

    /// Health results of the running instances checked so far.
    pub closed spec fn healthy_flags(&self) -> Seq<bool> {
        self.healthy@
    }

    /// Whether the instances built from the rollout's hash are being checked.
    pub closed spec fn checking_new_instances(&self) -> bool {
        self.checking_new
    }

    /// The instances built from the rollout's hash.
    pub closed spec fn new_instances_seq(&self) -> Seq<Instance> {
        self.new_instances@
    }

    /// Health results of those checked so far.
    pub closed spec fn healthy_new_flags(&self) -> Seq<bool> {
        self.healthy_new@
    }

    /// How many instances of the list being checked have been checked.
    pub closed spec fn probe_position(&self) -> usize {
        self.probe
    }

    /// The instances built from an older spec.
    pub closed spec fn stale_seq(&self) -> Seq<Instance> {
        self.stale@
    }

    /// The rollout of the spec being reconciled, as read this pass.
    pub closed spec fn rollout_opt(&self) -> Option<Rollout> {
        self.rollout
    }

    /// The instance whose create command the pass waits for.
    pub closed spec fn pending_opt(&self) -> Option<Instance> {
        self.pending
    }

    /// How many instances are still to be created.
    pub closed spec fn creates_remaining(&self) -> u32 {
        self.creates_left
    }

    /// The index the next created instance is named after.
    pub closed spec fn next_instance_index(&self) -> u32 {
        self.next_index
    }

    /// The excess instances to delete.
    pub closed spec fn doomed_seq(&self) -> Seq<Instance> {
        self.doomed@
    }

    /// How many of them have been dealt with.
    pub closed spec fn doomed_position(&self) -> usize {
        self.doomed_index
    }

    /// The pass went on to the next spec.
    pub open spec fn moved_on(&self, pre: Reconciler, r: Step) -> bool {
        &&& r is Continue
        &&& self.stage_now() == Stage::SpecStart
        &&& self.spec_position() == pre.spec_position() + 1
    }

    /// The pass has begun (the configured nodes are registered).
    pub closed spec fn started(&self) -> bool {
        !(self.stage is Start)
    }

    closed spec fn past_gc(&self) -> bool {
        !(self.stage is Start || self.stage is GcNext || self.stage is GcWait)
    }

    closed spec fn pending_in_spec(&self) -> bool {
        self.pending matches Some(p) && p.spec_name@ == self.specs@[self.spec_index as int].spec.name@
    }

    closed spec fn inv_common(&self) -> bool {
        &&& self.db@.wf()
        &&& forall|g: int| 0 <= g < self.groups@.len() ==> #[trigger] self.groups@[g].instances@.len() > 0
        &&& forall|g: int| 0 <= g < self.groups@.len() ==> !spec_names(self.specs@).contains(
            #[trigger] self.groups@[g].spec_name@,
        )
        &&& (self.started() ==> nodes_registered(self.db@.nodes, sviews(self.nodes@)))
    }

    /// Internal consistency of a pass in progress.
    pub closed spec fn inv(&self) -> bool {
        &&& self.inv_common()
        &&& (self.past_gc() ==> no_orphans(self.db@.instances, spec_names(self.specs@)))
        &&& match self.stage {
            Stage::GcNext => self.group <= self.groups@.len() && (self.group < self.groups@.len()
                ==> self.member < self.groups@[self.group as int].instances@.len()) && self.gc_ok(),
            Stage::GcWait => self.group < self.groups@.len() && self.member
                < self.groups@[self.group as int].instances@.len() && self.gc_ok(),
            Stage::HealthNext => self.in_spec() && self.probe_ok(),
            Stage::HealthWait => {
                &&& self.in_spec()
                &&& self.probe_ok()
                &&& self.health_template@.len() > 0
                &&& (if self.checking_new { self.probe < self.new_instances@.len() } else { self.probe < self.running@.len() })
            },
            Stage::AfterHealth => self.in_spec() && self.healthy@.len() == self.running@.len(),
            Stage::CreateNext => self.in_spec(),
            Stage::CreateWait => self.in_spec() && self.pending_in_spec() && self.creates_left > 0,
            Stage::DeleteNext => self.in_spec() && self.doomed_index <= self.doomed@.len(),
            Stage::DeleteWait => self.in_spec() && self.doomed_index < self.doomed@.len(),
            Stage::RolloutPhase => self.in_spec() && self.rollout_matches() && self.healthy_new@.len()
                == self.new_instances@.len(),
            Stage::RolloutCreateWait => {
                &&& self.in_spec()
                &&& self.pending_in_spec()
                &&& self.rollout_matches()
                &&& self.rollout matches Some(r) && r.created_count < u32::MAX && r.phase@ == "creating"@
            },
            Stage::DrainWait => self.in_spec() && self.stale@.len() > 0,
            _ => true,
        }
    }

    /// The action lines logged so far.
    pub fn action_lines(&self) -> (r: &Vec<String>)
        ensures
            sviews(r@) == self.actions_view(),
    {
        &self.actions
    }

    /// What the command the pass waits for acts on: `(true, id, node)` for the instance it
    /// creates, `(false, id, node)` for the one it deletes, `None` for a health check or when
    /// no command is awaited.
    pub fn command_subject(&self) -> (r: Option<(bool, String, String)>)
        requires
            self.inv(),
        ensures
            match r {
                Some((create, id, node)) => subject_of(*self) == Some((create, id@, node@)),
                None => subject_of(*self) is None,
            },
    {
        match self.stage {
            Stage::CreateWait | Stage::RolloutCreateWait => match &self.pending {
                Some(p) => Some((true, p.id.clone(), p.node.clone())),
                None => None,
            },
            Stage::DeleteWait => {
                let d = &self.doomed[self.doomed_index];
                Some((false, d.id.clone(), d.node.clone()))
            },
            Stage::DrainWait => Some((false, self.stale[0].id.clone(), self.stale[0].node.clone())),
            Stage::GcWait => {
                let x = &self.groups[self.group].instances[self.member];
                Some((false, x.id.clone(), x.node.clone()))
            },
            _ => None,
        }
    }

    /// Whether the pass is waiting for a command result.
    pub fn is_awaiting(&self) -> (r: bool)
        ensures
            r == self.awaiting(),
    {
        match self.stage {
            Stage::GcWait | Stage::HealthWait | Stage::CreateWait | Stage::DeleteWait
            | Stage::RolloutCreateWait | Stage::DrainWait => true,
            _ => false,
        }
    }

    /// The record as it stands, to be saved while the pass goes on.
    pub fn record(&self) -> (r: &StateDB)
        ensures
            r@ == self.db_view(),
    {
        &self.db
    }

    /// Ends the pass, handing back the record and the action lines.
    pub fn into_parts(self) -> (r: (StateDB, Vec<String>))
        ensures
            r.0@ == self.db_view(),
            sviews(r.1@) == self.actions_view(),
    {
        (self.db, self.actions)
    }

}

fn log(actions: &mut Vec<String>, line: String)
    ensures
        sviews(final(actions)@) == sviews(old(actions)@).push(line@),
{
    let ghost a0 = actions@;
    actions.push(line);
    assert(sviews(actions@) =~= sviews(a0).push(line@));
}

/// What the command a pass waits for acts on: whether it creates or deletes, and the
/// instance's id and node (see [`Reconciler::command_subject`]).
pub open spec fn subject_of(rec: Reconciler) -> Option<(bool, Seq<char>, Seq<char>)> {
    match rec.stage_now() {
        Stage::CreateWait | Stage::RolloutCreateWait => match rec.pending_opt() {
            Some(p) => Some((true, p.id@, p.node@)),
            None => None,
        },
        Stage::DeleteWait => {
            let d = rec.doomed_seq()[rec.doomed_position() as int];
            Some((false, d.id@, d.node@))
        },
        Stage::DrainWait => Some((false, rec.stale_seq()[0].id@, rec.stale_seq()[0].node@)),
        Stage::GcWait => {
            let x = rec.groups_seq()[rec.group_position() as int].instances@[rec.member_position() as int];
            Some((false, x.id@, x.node@))
        },
        _ => None,
    }
}

/// `later` keeps every line of `earlier`, in place, possibly followed by more.
pub open spec fn extends(earlier: Seq<Seq<char>>, later: Seq<Seq<char>>) -> bool {
    earlier.len() <= later.len() && later.take(earlier.len() as int) == earlier
}

proof fn lemma_extends_push(a: Seq<Seq<char>>, b: Seq<Seq<char>>, x: Seq<char>)
    requires
        extends(a, b),
    ensures
        extends(a, b.push(x)),
{
    assert(b.push(x).take(a.len() as int) =~= b.take(a.len() as int));
}

proof fn lemma_extends_refl(a: Seq<Seq<char>>)
    ensures
        extends(a, a),
{
    assert(a.take(a.len() as int) =~= a);
}

/// The rollout records after removing, name by name, the rollout of each of `names` that
/// is still recorded.
pub open spec fn rollouts_without(rs: Seq<crate::spec::RolloutView>, names: Seq<Seq<char>>) -> Seq<
    crate::spec::RolloutView,
>
    decreases names.len(),
{
    if names.len() == 0 {
        rs
    } else {
        let prev = rollouts_without(rs, names.drop_last());
        if crate::state::rollout_of(prev, names.last()) is Some {
            crate::state::without_rollout(prev, names.last())
        } else {
            prev
        }
    }
}

/// The lines logged while removing those rollouts: one per rollout removed.
pub open spec fn rollout_cleanup_lines(rs: Seq<crate::spec::RolloutView>, names: Seq<Seq<char>>) -> Seq<
    Seq<char>,
>
    decreases names.len(),
{
    if names.len() == 0 {
        Seq::empty()
    } else {
        let prev = rollouts_without(rs, names.drop_last());
        rollout_cleanup_lines(rs, names.drop_last()) + if crate::state::rollout_of(prev, names.last()) is Some {
            seq!["gc: cleaned up rollout for deleted spec '"@ + names.last() + "'"@]
        } else {
            Seq::empty()
        }
    }
}

/// `c` is `template` with some instance name and node filled in.
pub open spec fn is_template_use(template: Seq<char>, c: Seq<char>) -> bool {
    exists|id: Seq<char>, node: Seq<char>| c == spec_substitute(template, id, node)
}

/// Every name of `names` is a recorded node.
pub open spec fn nodes_registered(nodes: Seq<crate::spec::NodeView>, names: Seq<Seq<char>>) -> bool {
    forall|i: int| 0 <= i < names.len() ==> crate::state::has_node(nodes, #[trigger] names[i])
}

/// `c` is one of the pass's configured command templates, filled in.
pub open spec fn runs_configured_command(rec: Reconciler, c: Seq<char>) -> bool {
    ||| is_template_use(rec.create_template_view(), c)
    ||| is_template_use(rec.delete_template_view(), c)
    ||| is_template_use(rec.health_template_view(), c)
}

/// What every step of a pass keeps: the pass stays consistent and begun; it asks for a
/// command exactly when it then waits for one, and only for a configured command filled
/// in; it says it is finished exactly when it is; the action log only grows; the specs,
/// nodes and templates stay as given; once begun, the node records are left alone.
pub open spec fn step_post(pre: Reconciler, post: Reconciler, r: Step) -> bool {
    &&& post.inv()
    &&& post.started()
    &&& post.create_template_view() == pre.create_template_view()
    &&& post.delete_template_view() == pre.delete_template_view()
    &&& post.health_template_view() == pre.health_template_view()
    &&& (r matches Step::Run(c) ==> runs_configured_command(post, c@))
    &&& (pre.started() ==> post.db_view().nodes == pre.db_view().nodes)
    &&& (r is Run <==> post.awaiting())
    &&& (r is Finished <==> post.finished())
    &&& extends(pre.actions_view(), post.actions_view())
    &&& post.specs_view() == pre.specs_view()
    &&& post.nodes_view() == pre.nodes_view()
}

impl Reconciler {
    fn next_spec(&mut self) -> (r: Step)
        requires
            old(self).inv_common(),
            old(self).started(),
            old(self).in_spec(),
            no_orphans(old(self).db@.instances, spec_names(old(self).specs@)),
        ensures
            step_post(*old(self), *final(self), r),
            final(self).actions_view() == old(self).actions_view(),
            final(self).db_view() == old(self).db_view(),
            final(self).moved_on(*old(self), r),
            *final(self) == (Reconciler { spec_index: final(self).spec_index, stage: Stage::SpecStart, ..*old(self) }),
    {
        let n = self.specs.len();
        assert(self.spec_index < n);
        self.spec_index = self.spec_index + 1;
        self.stage = Stage::SpecStart;
        proof {
            assert(self.actions_view() =~= old(self).actions_view());
        }
        Step::Continue
    }

    fn on_start(&mut self) -> (r: Step)
        requires
            old(self).inv(),
            old(self).stage is Start,
        ensures
            step_post(*old(self), *final(self), r),
            crate::pass::start_effect(*old(self), *final(self), r),
    {
        self.db.register_nodes(self.nodes.as_slice());
        proof {
            let names = sviews(self.nodes@);
            assert forall|i: int| 0 <= i < names.len() implies crate::state::has_node(self.db@.nodes, #[trigger] names[i]) by {
                assert(names.contains(names[i]));
                crate::state::law_register_nodes(old(self).db@.nodes, names, names[i]);
            }
        }
        let all = self.db.get_all_instances();
        let groups = orphan_groups(&all, self.specs.as_slice());
        proof {
            assert forall|g: int| 0 <= g < groups@.len() implies #[trigger] groups@[g].instances@.len() > 0 by {
                assert(group_members_of(groups@)[g].len() > 0);
            }
            assert forall|g: int| 0 <= g < groups@.len() implies !spec_names(self.specs@).contains(
                #[trigger] groups@[g].spec_name@,
            ) by {
                assert(group_names_of(groups@)[g] == groups@[g].spec_name@);
            }
        }
        self.groups = groups;
        self.group = 0;
        self.member = 0;
        self.stage = Stage::GcNext;
        proof {
            assert(self.actions_view() =~= old(self).actions_view());
            let names = spec_names(self.specs@);
            let dbi = self.db@.instances;
            assert(iviews(all@) == dbi);
            assert forall|k: int| 0 <= k < dbi.len() && is_orphan(names, #[trigger] dbi[k])
                implies self.gc_pending(dbi[k]) by {
                let gn = group_names_of(self.groups@);
                let gm = group_members_of(self.groups@);
                assert(gn.contains(dbi[k].spec_name));
                let g = choose|g: int| 0 <= g < gn.len() && gn[g] == dbi[k].spec_name;
                assert(gm[g] == dbi.filter(of_spec(gn[g])));
                dbi.lemma_filter_contains(of_spec(gn[g]), k);
                let m = choose|m: int| 0 <= m < gm[g].len() && gm[g][m] == dbi[k];
                assert(self.groups@[g].instances@[m]@ == dbi[k]);
            }
        }
        Step::Continue
    }

    fn on_gc_next(&mut self) -> (r: Step)
        requires
            old(self).inv(),
            old(self).stage is GcNext,
        ensures
            step_post(*old(self), *final(self), r),
            crate::pass::gc_next_effect(*old(self), *final(self), r),
    {
        if self.group < self.groups.len() {
            let g = self.group;
            let m = self.member;
            proof {
                lemma_extends_refl(self.actions_view());
            }
            if m == 0 {
                let line = String::from_str("gc: spec '").concat(self.groups[g].spec_name.as_str()).concat(
                    "' removed, cleaning up ",
                ).concat(decimal(self.groups[g].instances.len() as u64).as_str()).concat(" orphaned instances");
                log(&mut self.actions, line);
                proof {
                    lemma_extends_push(old(self).actions_view(), old(self).actions_view(), line@);
                }
            }
            let inst = &self.groups[g].instances[m];
            let cmd = substitute(self.delete_template.as_str(), inst.id.as_str(), inst.node.as_str());
            let line = String::from_str("gc: delete orphan ").concat(inst.id.as_str()).concat(" -> ").concat(cmd.as_str());
            let ghost a0 = self.actions_view();
            log(&mut self.actions, line);
            proof {
                lemma_extends_push(old(self).actions_view(), a0, line@);
            }
            self.stage = Stage::GcWait;
            proof {
                assert forall|k: int| 0 <= k < self.db@.instances.len() && is_orphan(spec_names(self.specs@), #[trigger] self.db@.instances[k])
                    implies self.gc_pending(self.db@.instances[k]) by {
                    assert(old(self).gc_pending(self.db@.instances[k]));
                    let (g, mm) = choose|g: int, mm: int|
                        #![trigger old(self).groups@[g].instances@[mm]]
                        old(self).group <= g < old(self).groups@.len() && 0 <= mm < old(self).groups@[g].instances@.len() && (g
                            == old(self).group ==> mm >= old(self).member) && old(self).groups@[g].instances@[mm]@ == self.db@.instances[k];
                    assert(self.groups@[g].instances@[mm]@ == self.db@.instances[k]);
                }
            }
            Step::Run(cmd)
        } else {
            self.stage = Stage::GcRollouts;
            proof {
                assert(self.actions_view() =~= old(self).actions_view());
                assert forall|k: int| 0 <= k < self.db@.instances.len()
                    implies spec_names(self.specs@).contains(#[trigger] self.db@.instances[k].spec_name) by {
                    if !spec_names(self.specs@).contains(self.db@.instances[k].spec_name) {
                        assert(is_orphan(spec_names(self.specs@), self.db@.instances[k]));
                        assert(old(self).gc_pending(self.db@.instances[k]));
                    }
                }
            }
            Step::Continue
        }
    }

    fn on_gc_wait(&mut self, outcome: Result<bool, String>) -> (r: Step)
        requires
            old(self).inv(),
            old(self).stage is GcWait,
        ensures
            step_post(*old(self), *final(self), r),
            crate::pass::gc_wait_effect(*old(self), *final(self), outcome, r),
    {
        let g = self.group;
        let m = self.member;
        let id = self.groups[g].instances[m].id.clone();
        proof {
            lemma_extends_refl(self.actions_view());
        }
        if let Err(e) = outcome {
            let line = String::from_str("gc: delete error for ").concat(id.as_str()).concat(": ").concat(e.as_str());
            log(&mut self.actions, line);
            proof {
                lemma_extends_push(old(self).actions_view(), old(self).actions_view(), line@);
            }
        }
        let n = self.groups.len();
        assert(g < n);
        let mlen = self.groups[g].instances.len();
        assert(m < mlen);
        let ghost y = self.groups@[g as int].instances@[m as int]@;
        let ghost before = self.db@.instances;
        self.db.delete_instance(id.as_str());
        if m + 1 == mlen {
            self.group = g + 1;
            self.member = 0;
        } else {
            self.member = m + 1;
        }
        self.stage = Stage::GcNext;
        proof {
            let after = self.db@.instances;
            assert(after == crate::state::without_instance(before, y.id));
            assert forall|k: int| 0 <= k < after.len() && is_orphan(spec_names(self.specs@), #[trigger] after[k])
                implies self.gc_pending(after[k]) by {
                let x = after[k];
                assert(after.contains(x));
                before.lemma_filter_contains_rev(crate::state::instance_id_is_not(y.id), x);
                let w = choose|w: int| 0 <= w < before.len() && before[w] == x;
                before.lemma_filter_pred(crate::state::instance_id_is_not(y.id), k);
                assert(x.id != y.id);
                assert(old(self).gc_pending(before[w]));
                let (g2, m2) = choose|g2: int, m2: int|
                    #![trigger old(self).groups@[g2].instances@[m2]]
                    old(self).group <= g2 < old(self).groups@.len() && 0 <= m2 < old(self).groups@[g2].instances@.len() && (g2
                        == old(self).group ==> m2 >= old(self).member) && old(self).groups@[g2].instances@[m2]@ == before[w];
                assert(!(g2 == g && m2 == m));
                assert(self.groups@[g2].instances@[m2]@ == x);
            }
        }
        Step::Continue
    }

    fn on_gc_rollouts(&mut self) -> (r: Step)
        requires
            old(self).inv(),
            old(self).stage is GcRollouts,
        ensures
            step_post(*old(self), *final(self), r),
            crate::pass::gc_rollouts_effect(*old(self), *final(self), r),
    {
        let mut k: usize = 0;
        proof {
            lemma_extends_refl(self.actions_view());
        }
        while k < self.groups.len()
            invariant
                self.db@.wf(),
                self.db@.instances == old(self).db@.instances,
                self.db@.nodes == old(self).db@.nodes,
                self.create_template == old(self).create_template,
                self.delete_template == old(self).delete_template,
                self.health_template == old(self).health_template,
                k <= self.groups@.len(),
                self.groups == old(self).groups,
                self.specs == old(self).specs,
                self.nodes == old(self).nodes,
                extends(old(self).actions_view(), self.actions_view()),
                self.db@.rollouts == rollouts_without(old(self).db@.rollouts, group_names_of(old(self).groups@).take(k as int)),
                self.actions_view() == old(self).actions_view() + rollout_cleanup_lines(
                    old(self).db@.rollouts,
                    group_names_of(old(self).groups@).take(k as int),
                ),
            decreases self.groups.len() - k,
        {
            proof {
                let gn = group_names_of(old(self).groups@);
                assert(gn.take(k + 1).drop_last() =~= gn.take(k as int));
                assert(gn.take(k + 1).last() == self.groups@[k as int].spec_name@);
            }
            if self.db.get_rollout(self.groups[k].spec_name.as_str()).is_some() {
                self.db.delete_rollout(self.groups[k].spec_name.as_str());
                let line = String::from_str("gc: cleaned up rollout for deleted spec '").concat(
                    self.groups[k].spec_name.as_str(),
                ).concat("'");
                let ghost a0 = self.actions_view();
                log(&mut self.actions, line);
                proof {
                    lemma_extends_push(old(self).actions_view(), a0, line@);
                }
            }
            k += 1;
        }
        self.spec_index = 0;
        self.stage = Stage::SpecStart;
        Step::Continue
    }
}

impl Reconciler {
    fn on_spec_start(&mut self) -> (r: Step)
        requires
            old(self).inv(),
            old(self).stage is SpecStart,
        ensures
            step_post(*old(self), *final(self), r),
            crate::pass::spec_start_effect(*old(self), *final(self), r),
    {
        proof {
            lemma_extends_refl(self.actions_view());
        }
        if self.spec_index >= self.specs.len() {
            self.stage = Stage::Done;
            return Step::Finished;
        }
        let i = self.spec_index;
        match &self.specs[i].hash {
            Err(e) => {
                let line = String::from_str("hash error for '").concat(self.specs[i].spec.name.as_str()).concat(
                    "': ",
                ).concat(e.as_str());
                log(&mut self.actions, line);
                proof {
                    lemma_extends_push(old(self).actions_view(), old(self).actions_view(), line@);
                }
                self.next_spec()
            },
            Ok(h) => {
                self.current_hash = h.clone();
                self.instances = self.db.get_instances(self.specs[i].spec.name.as_str());
                self.running = select_instances(&self.instances, Selection::Live, self.current_hash.as_str());
                self.healthy = Vec::new();
                self.checking_new = false;
                self.probe = 0;
                self.stage = Stage::HealthNext;
                Step::Continue
            },
        }
    }

    fn on_health_next(&mut self) -> (r: Step)
        requires
            old(self).inv(),
            old(self).stage is HealthNext,
        ensures
            step_post(*old(self), *final(self), r),
            crate::pass::health_next_effect(*old(self), *final(self), r),
    {
        proof {
            lemma_extends_refl(self.actions_view());
        }
        let len = if self.checking_new { self.new_instances.len() } else { self.running.len() };
        if self.probe < len {
            let cmd = if self.checking_new {
                health_command(&self.new_instances[self.probe], self.health_template.as_str())
            } else {
                health_command(&self.running[self.probe], self.health_template.as_str())
            };
            match cmd {
                Some(c) => {
                    self.stage = Stage::HealthWait;
                    Step::Run(c)
                },
                None => {
                    let no_result: Result<bool, String> = Ok(false);
                    if self.checking_new {
                        let flag = check_health(&self.new_instances[self.probe], self.health_template.as_str(), &no_result);
                        self.healthy_new.push(flag);
                    } else {
                        let flag = check_health(&self.running[self.probe], self.health_template.as_str(), &no_result);
                        self.healthy.push(flag);
                    }
                    self.probe = self.probe + 1;
                    Step::Continue
                },
            }
        } else {
            if self.checking_new {
                self.stage = Stage::RolloutPhase;
            } else {
                self.stage = Stage::AfterHealth;
            }
            Step::Continue
        }
    }

    fn on_health_wait(&mut self, outcome: Result<bool, String>) -> (r: Step)
        requires
            old(self).inv(),
            old(self).stage is HealthWait,
        ensures
            step_post(*old(self), *final(self), r),
            crate::pass::health_wait_effect(*old(self), *final(self), outcome, r),
    {
        proof {
            lemma_extends_refl(self.actions_view());
        }
        let len = if self.checking_new { self.new_instances.len() } else { self.running.len() };
        assert(self.probe < len);
        if self.checking_new {
            let flag = check_health(&self.new_instances[self.probe], self.health_template.as_str(), &outcome);
            self.healthy_new.push(flag);
        } else {
            let flag = check_health(&self.running[self.probe], self.health_template.as_str(), &outcome);
            self.healthy.push(flag);
        }
        self.probe = self.probe + 1;
        self.stage = Stage::HealthNext;
        Step::Continue
    }

    fn on_after_health(&mut self) -> (r: Step)
        requires
            old(self).inv(),
            old(self).stage is AfterHealth,
        ensures
            step_post(*old(self), *final(self), r),
            crate::pass::after_health_effect(*old(self), *final(self), r),
    {
        proof {
            lemma_extends_refl(self.actions_view());
        }
        let i = self.spec_index;
        self.stale = select_instances(&self.instances, Selection::Stale, self.current_hash.as_str());
        if self.stale.len() > 0 {
            match self.db.get_rollout(self.specs[i].spec.name.as_str()) {
                Some(r) => {
                    proof {
                        lemma_rollout_of_name(self.db@.rollouts, self.specs@[i as int].spec.name@);
                    }
                    if !str_eq(r.new_hash.as_str(), self.current_hash.as_str()) {
                        self.db.delete_rollout(r.spec_name.as_str());
                        let fresh = Rollout::new(self.specs[i].spec.name.as_str(), self.current_hash.as_str());
                        self.db.insert_rollout(&fresh);
                        let line = String::from_str("spec '").concat(self.specs[i].spec.name.as_str()).concat(
                            "' changed during rollout, restarting",
                        );
                        log(&mut self.actions, line);
                        proof {
                            lemma_extends_push(old(self).actions_view(), old(self).actions_view(), line@);
                        }
                        self.next_spec()
                    } else {
                        self.new_instances = select_instances(&self.instances, Selection::BuiltFrom, r.new_hash.as_str());
                        self.healthy_new = Vec::new();
                        self.probe = 0;
                        self.checking_new = true;
                        self.rollout = Some(r);
                        self.stage = Stage::HealthNext;
                        Step::Continue
                    }
                },
                None => {
                    let fresh = Rollout::new(self.specs[i].spec.name.as_str(), self.current_hash.as_str());
                    self.db.insert_rollout(&fresh);
                    let line = String::from_str("spec '").concat(self.specs[i].spec.name.as_str()).concat(
                        "' changed (",
                    ).concat(decimal(self.stale.len() as u64).as_str()).concat(" old instances), starting rollout");
                    log(&mut self.actions, line);
                    proof {
                        lemma_extends_push(old(self).actions_view(), old(self).actions_view(), line@);
                    }
                    self.next_spec()
                },
            }
        } else {
            if let Some(r) = self.db.get_rollout(self.specs[i].spec.name.as_str()) {
                if str_eq(r.phase.as_str(), "complete") {
                    self.db.delete_rollout(self.specs[i].spec.name.as_str());
                }
            }
            let current = count_flags(&self.healthy);
            let desired = self.specs[i].spec.replicas;
            let name = self.specs[i].spec.name.as_str();
            match replica_plan(current, desired) {
                ReplicaPlan::Create(needed) => {
                    let line = String::from_str("spec '").concat(name).concat("': ").concat(
                        decimal(current as u64).as_str(),
                    ).concat(" healthy, need ").concat(decimal(needed as u64).as_str()).concat(" more");
                    log(&mut self.actions, line);
                    proof {
                        lemma_extends_push(old(self).actions_view(), old(self).actions_view(), line@);
                    }
                    self.creates_left = needed;
                    self.next_index = self.instances.len() as u32;
                    self.stage = Stage::CreateNext;
                    Step::Continue
                },
                ReplicaPlan::Delete(excess) => {
                    let line = String::from_str("spec '").concat(name).concat("': ").concat(
                        decimal(current as u64).as_str(),
                    ).concat(" running, ").concat(decimal(excess as u64).as_str()).concat(" excess");
                    log(&mut self.actions, line);
                    proof {
                        lemma_extends_push(old(self).actions_view(), old(self).actions_view(), line@);
                    }
                    self.doomed = choose_excess(&self.running, &self.healthy, excess);
                    self.doomed_index = 0;
                    self.stage = Stage::DeleteNext;
                    Step::Continue
                },
                ReplicaPlan::Keep => {
                    let line = String::from_str("spec '").concat(name).concat("': ").concat(
                        decimal(current as u64).as_str(),
                    ).concat(" replicas healthy (no change)");
                    log(&mut self.actions, line);
                    proof {
                        lemma_extends_push(old(self).actions_view(), old(self).actions_view(), line@);
                    }
                    self.next_spec()
                },
            }
        }
    }
}

impl Reconciler {
    fn on_create_next(&mut self, now: u64) -> (r: Step)
        requires
            old(self).inv(),
            old(self).stage is CreateNext,
        ensures
            step_post(*old(self), *final(self), r),
            crate::pass::create_next_effect(*old(self), *final(self), now, r),
    {
        proof {
            lemma_extends_refl(self.actions_view());
        }
        if self.creates_left == 0 {
            return self.next_spec();
        }
        let i = self.spec_index;
        match schedule_instance(
            &self.db,
            &self.specs[i].spec,
            self.current_hash.as_str(),
            self.nodes.as_slice(),
            &self.scheduler,
            self.next_index,
            now,
        ) {
            Ok(inst) => {
                let cmd = substitute(self.create_template.as_str(), inst.id.as_str(), inst.node.as_str());
                let line = String::from_str("create: ").concat(inst.id.as_str()).concat(" on ").concat(
                    inst.node.as_str(),
                ).concat(" -> ").concat(cmd.as_str());
                log(&mut self.actions, line);
                proof {
                    lemma_extends_push(old(self).actions_view(), old(self).actions_view(), line@);
                }
                self.pending = Some(inst);
                self.stage = Stage::CreateWait;
                Step::Run(cmd)
            },
            Err(e) => {
                let line = String::from_str("schedule error: ").concat(e.as_str());
                log(&mut self.actions, line);
                proof {
                    lemma_extends_push(old(self).actions_view(), old(self).actions_view(), line@);
                }
                self.next_spec()
            },
        }
    }

    fn on_create_wait(&mut self, outcome: Result<bool, String>) -> (r: Step)
        requires
            old(self).inv(),
            old(self).stage is CreateWait,
        ensures
            step_post(*old(self), *final(self), r),
            crate::pass::create_wait_effect(*old(self), *final(self), outcome, r),
    {
        proof {
            lemma_extends_refl(self.actions_view());
        }
        let taken = self.pending.take();
        if let Some(mut inst) = taken {
            match outcome {
                Ok(true) => {
                    inst.status = String::from_str("running");
                    proof {
                        let names = spec_names(self.specs@);
                        assert(names[self.spec_index as int] == inst.spec_name@);
                        lemma_no_orphans_put(self.db@.instances, inst@, names);
                    }
                    self.db.insert_instance(&inst);
                    let line = String::from_str("created: ").concat(inst.id.as_str());
                    log(&mut self.actions, line);
                    proof {
                        lemma_extends_push(old(self).actions_view(), old(self).actions_view(), line@);
                    }
                },
                Ok(false) => {
                    let line = String::from_str("create failed: ").concat(inst.id.as_str());
                    log(&mut self.actions, line);
                    proof {
                        lemma_extends_push(old(self).actions_view(), old(self).actions_view(), line@);
                    }
                },
                Err(e) => {
                    let line = String::from_str("create error: ").concat(e.as_str());
                    log(&mut self.actions, line);
                    proof {
                        lemma_extends_push(old(self).actions_view(), old(self).actions_view(), line@);
                    }
                },
            }
        }
        self.next_index = self.next_index.wrapping_add(1);
        self.creates_left = self.creates_left - 1;
        self.stage = Stage::CreateNext;
        Step::Continue
    }

    fn on_delete_next(&mut self) -> (r: Step)
        requires
            old(self).inv(),
            old(self).stage is DeleteNext,
        ensures
            step_post(*old(self), *final(self), r),
            crate::pass::delete_next_effect(*old(self), *final(self), r),
    {
        proof {
            lemma_extends_refl(self.actions_view());
        }
        if self.doomed_index >= self.doomed.len() {
            return self.next_spec();
        }
        let inst = &self.doomed[self.doomed_index];
        let cmd = substitute(self.delete_template.as_str(), inst.id.as_str(), inst.node.as_str());
        let line = String::from_str("delete: ").concat(inst.id.as_str()).concat(" on ").concat(inst.node.as_str()).concat(
            " -> ",
        ).concat(cmd.as_str());
        log(&mut self.actions, line);
        proof {
            lemma_extends_push(old(self).actions_view(), old(self).actions_view(), line@);
        }
        self.db.update_instance_status(inst.id.as_str(), "deleting");
        self.stage = Stage::DeleteWait;
        Step::Run(cmd)
    }

    fn on_delete_wait(&mut self, outcome: Result<bool, String>) -> (r: Step)
        requires
            old(self).inv(),
            old(self).stage is DeleteWait,
        ensures
            step_post(*old(self), *final(self), r),
            crate::pass::delete_wait_effect(*old(self), *final(self), outcome, r),
    {
        proof {
            lemma_extends_refl(self.actions_view());
        }
        let k = self.doomed_index;
        let n = self.doomed.len();
        assert(k < n);
        if let Err(e) = outcome {
            let line = String::from_str("delete command error for ").concat(self.doomed[k].id.as_str()).concat(
                ": ",
            ).concat(e.as_str());
            log(&mut self.actions, line);
            proof {
                lemma_extends_push(old(self).actions_view(), old(self).actions_view(), line@);
            }
        }
        proof {
            lemma_no_orphans_without(self.db@.instances, self.doomed@[k as int].id@, spec_names(self.specs@));
        }
        self.db.delete_instance(self.doomed[k].id.as_str());
        self.doomed_index = k + 1;
        self.stage = Stage::DeleteNext;
        Step::Continue
    }

    fn on_rollout_phase(&mut self, now: u64) -> (r: Step)
        requires
            old(self).inv(),
            old(self).stage is RolloutPhase,
        ensures
            step_post(*old(self), *final(self), r),
            crate::pass::rollout_phase_effect(*old(self), *final(self), now, r),
    {
        proof {
            lemma_extends_refl(self.actions_view());
        }
        let i = self.spec_index;
        let r = match &self.rollout {
            Some(r) => r.duplicate(),
            None => { return self.next_spec(); },
        };
        proof {
            lemma_rollout_of_name(self.db@.rollouts, self.specs@[i as int].spec.name@);
        }
        let replicas = self.specs[i].spec.replicas;
        if str_eq(r.phase.as_str(), "creating") {
            if r.created_count < replicas {
                let next = self.instances.len() as u32;
                match schedule_instance(
                    &self.db,
                    &self.specs[i].spec,
                    r.new_hash.as_str(),
                    self.nodes.as_slice(),
                    &self.scheduler,
                    next,
                    now,
                ) {
                    Ok(inst) => {
                        let cmd = substitute(self.create_template.as_str(), inst.id.as_str(), inst.node.as_str());
                        let line = String::from_str("rollout: create ").concat(
                            decimal((r.created_count + 1) as u64).as_str(),
                        ).concat("/").concat(decimal(replicas as u64).as_str()).concat(" -> ").concat(
                            inst.id.as_str(),
                        ).concat(" on ").concat(inst.node.as_str());
                        log(&mut self.actions, line);
                        proof {
                            lemma_extends_push(old(self).actions_view(), old(self).actions_view(), line@);
                        }
                        self.pending = Some(inst);
                        self.stage = Stage::RolloutCreateWait;
                        Step::Run(cmd)
                    },
                    Err(e) => {
                        let line = String::from_str("schedule error: ").concat(e.as_str());
                        log(&mut self.actions, line);
                        proof {
                            lemma_extends_push(old(self).actions_view(), old(self).actions_view(), line@);
                        }
                        self.next_spec()
                    },
                }
            } else {
                self.db.update_rollout_phase(r.spec_name.as_str(), "waiting_healthy");
                let line = String::from_str("rollout: ").concat(decimal(r.created_count as u64).as_str()).concat(
                    " instances created, waiting for healthy",
                );
                log(&mut self.actions, line);
                proof {
                    lemma_extends_push(old(self).actions_view(), old(self).actions_view(), line@);
                }
                self.next_spec()
            }
        } else if str_eq(r.phase.as_str(), "waiting_healthy") {
            let ready = count_flags(&self.healthy_new);
            if ready >= replicas as usize {
                self.db.update_rollout_phase(r.spec_name.as_str(), "draining");
                let line = String::from_str("rollout: ").concat(decimal(ready as u64).as_str()).concat(
                    " healthy, starting drain of old instances",
                );
                log(&mut self.actions, line);
                proof {
                    lemma_extends_push(old(self).actions_view(), old(self).actions_view(), line@);
                }
            } else {
                let line = String::from_str("rollout: waiting (").concat(decimal(ready as u64).as_str()).concat(
                    "/",
                ).concat(decimal(replicas as u64).as_str()).concat(" healthy)");
                log(&mut self.actions, line);
                proof {
                    lemma_extends_push(old(self).actions_view(), old(self).actions_view(), line@);
                }
            }
            self.next_spec()
        } else if str_eq(r.phase.as_str(), "draining") {
            if self.stale.len() > 0 {
                let old_inst = &self.stale[0];
                let cmd = substitute(self.delete_template.as_str(), old_inst.id.as_str(), old_inst.node.as_str());
                let line = String::from_str("rollout: drain old ").concat(old_inst.id.as_str()).concat(" on ").concat(
                    old_inst.node.as_str(),
                ).concat(" -> ").concat(cmd.as_str());
                log(&mut self.actions, line);
                proof {
                    lemma_extends_push(old(self).actions_view(), old(self).actions_view(), line@);
                }
                self.db.update_instance_status(old_inst.id.as_str(), "deleting");
                self.stage = Stage::DrainWait;
                Step::Run(cmd)
            } else {
                self.db.update_rollout_phase(r.spec_name.as_str(), "complete");
                let line = String::from_str("rollout: all old instances drained");
                log(&mut self.actions, line);
                proof {
                    lemma_extends_push(old(self).actions_view(), old(self).actions_view(), line@);
                }
                self.next_spec()
            }
        } else if str_eq(r.phase.as_str(), "complete") {
            self.db.delete_rollout(r.spec_name.as_str());
            let line = String::from_str("rollout complete for '").concat(self.specs[i].spec.name.as_str()).concat("'");
            log(&mut self.actions, line);
            proof {
                lemma_extends_push(old(self).actions_view(), old(self).actions_view(), line@);
            }
            self.next_spec()
        } else {
            self.next_spec()
        }
    }

    fn on_rollout_create_wait(&mut self, outcome: Result<bool, String>) -> (r: Step)
        requires
            old(self).inv(),
            old(self).stage is RolloutCreateWait,
        ensures
            step_post(*old(self), *final(self), r),
            crate::pass::rollout_create_wait_effect(*old(self), *final(self), outcome, r),
    {
        proof {
            lemma_extends_refl(self.actions_view());
            lemma_rollout_of_name(self.db@.rollouts, self.specs@[self.spec_index as int].spec.name@);
        }
        let taken = self.pending.take();
        let name = match &self.rollout {
            Some(r) => r.spec_name.clone(),
            None => String::new(),
        };
        if let Some(mut inst) = taken {
            if let Err(e) = outcome {
                let line = String::from_str("create error: ").concat(e.as_str());
                log(&mut self.actions, line);
                proof {
                    lemma_extends_push(old(self).actions_view(), old(self).actions_view(), line@);
                }
            } else {
                inst.status = String::from_str("running");
                proof {
                    let names = spec_names(self.specs@);
                    assert(names[self.spec_index as int] == inst.spec_name@);
                    lemma_no_orphans_put(self.db@.instances, inst@, names);
                }
                self.db.insert_instance(&inst);
                self.db.increment_rollout_count(name.as_str());
            }
        }
        self.next_spec()
    }

    fn on_drain_wait(&mut self, outcome: Result<bool, String>) -> (r: Step)
        requires
            old(self).inv(),
            old(self).stage is DrainWait,
        ensures
            step_post(*old(self), *final(self), r),
            crate::pass::drain_wait_effect(*old(self), *final(self), outcome, r),
    {
        proof {
            lemma_extends_refl(self.actions_view());
        }
        if let Err(e) = outcome {
            let line = String::from_str("delete error: ").concat(e.as_str());
            log(&mut self.actions, line);
            proof {
                lemma_extends_push(old(self).actions_view(), old(self).actions_view(), line@);
            }
        }
        proof {
            lemma_no_orphans_without(self.db@.instances, self.stale@[0].id@, spec_names(self.specs@));
        }
        self.db.delete_instance(self.stale[0].id.as_str());
        self.next_spec()
    }

    /// Takes the pass one decision further. `outcome` is the result of the command the
    /// previous step asked for (`Some` exactly when the pass is waiting for one); `now` is
    /// the current time in seconds since the epoch, recorded on instances created now.
    /// What the step does is [`crate::pass::step_effect`] for the stage the pass stands in.
    /// After any step the configured nodes are recorded; once the pass is finished no
    /// instance of a spec that is no longer desired remains.
    pub fn step(&mut self, outcome: Option<Result<bool, String>>, now: u64) -> (r: Step)
        requires
            old(self).inv(),
            outcome is Some <==> old(self).awaiting(),
        ensures
            step_post(*old(self), *final(self), r),
            crate::pass::step_effect(*old(self), *final(self), outcome, now, r),
            final(self).finished() ==> no_orphans(final(self).db_view().instances, spec_names(final(self).specs_view())),
            nodes_registered(final(self).db_view().nodes, final(self).nodes_view()),
    {
        match outcome {
            Some(res) => match self.stage {
                Stage::GcWait => self.on_gc_wait(res),
                Stage::HealthWait => self.on_health_wait(res),
                Stage::CreateWait => self.on_create_wait(res),
                Stage::DeleteWait => self.on_delete_wait(res),
                Stage::RolloutCreateWait => self.on_rollout_create_wait(res),
                _ => self.on_drain_wait(res),
            },
            None => match self.stage {
                Stage::Start => self.on_start(),
                Stage::GcNext => self.on_gc_next(),
                Stage::GcRollouts => self.on_gc_rollouts(),
                Stage::SpecStart => self.on_spec_start(),
                Stage::HealthNext => self.on_health_next(),
                Stage::AfterHealth => self.on_after_health(),
                Stage::CreateNext => self.on_create_next(now),
                Stage::DeleteNext => self.on_delete_next(),
                Stage::RolloutPhase => self.on_rollout_phase(now),
                _ => {
                    proof {
                        lemma_extends_refl(self.actions_view());
                    }
                    Step::Finished
                },
            },
        }
    }
}

proof fn lemma_rollouts_without_of(rs: Seq<crate::spec::RolloutView>, names: Seq<Seq<char>>, n: Seq<char>)
    ensures
        rollout_of(rollouts_without(rs, names), n) == rollout_of(rs, n) || (rollout_of(
            rollouts_without(rs, names),
            n,
        ) is None && names.contains(n)),
    decreases names.len(),
{
    if names.len() > 0 {
        let init = names.drop_last();
        lemma_rollouts_without_of(rs, init, n);
        let prev = rollouts_without(rs, init);
        if rollout_of(prev, names.last()) is Some {
            crate::state::lemma_rollout_of_without(prev, names.last(), n);
        }
        if init.contains(n) {
            let k = choose|k: int| 0 <= k < init.len() && init[k] == n;
            assert(names[k] == n);
        }
        assert(names[names.len() - 1] == names.last());
    }
}

/// A rollout runs its course: whatever the stage, one step leaves a spec's rollout record
/// as it was, starts it afresh at `creating`, counts one more created instance while
/// `creating`, moves its phase on to the next, or removes it once `complete` or when the
/// spec is no longer desired.
pub proof fn law_rollout_course(
    pre: Reconciler,
    post: Reconciler,
    outcome: Option<Result<bool, String>>,
    now: u64,
    r: Step,
    name: Seq<char>,
)
    requires
        pre.inv(),
        crate::pass::step_effect(pre, post, outcome, now, r),
    ensures
        crate::pass::rollout_moves(
            rollout_of(pre.db_view().rollouts, name),
            rollout_of(post.db_view().rollouts, name),
            spec_names(pre.specs_view()).contains(name),
        ),
{
    let rs = pre.db@.rollouts;
    let rs2 = post.db@.rollouts;
    match pre.stage {
        Stage::GcRollouts => {
            let names = group_names_of(pre.groups@);
            lemma_rollouts_without_of(rs, names, name);
            if names.contains(name) {
                let g = choose|g: int| 0 <= g < names.len() && names[g] == name;
                assert(pre.groups@[g].spec_name@ == name);
            }
        },
        Stage::AfterHealth => {
            let cur = crate::pass::current_name(pre);
            let fresh = crate::pass::fresh_rollout(cur, pre.current_hash@);
            crate::state::lemma_rollout_of_without(rs, cur, name);
            crate::state::lemma_rollout_of_without(crate::state::without_rollout(rs, cur), cur, name);
            assert(crate::state::put_rollout(rs, fresh).drop_last() == crate::state::without_rollout(rs, cur));
            assert(crate::state::put_rollout(crate::state::without_rollout(rs, cur), fresh).drop_last()
                == crate::state::without_rollout(crate::state::without_rollout(rs, cur), cur));
        },
        Stage::RolloutPhase => {
            let cur = crate::pass::current_name(pre);
            lemma_rollout_of_name(rs, cur);
            crate::state::lemma_rollout_of_without(rs, cur, name);
            crate::state::law_rollout_phase_read_back(rs, cur, "waiting_healthy"@);
            crate::state::law_rollout_phase_read_back(rs, cur, "draining"@);
            crate::state::law_rollout_phase_read_back(rs, cur, "complete"@);
            if name != cur {
                crate::state::lemma_rollout_phase_other(rs, cur, "waiting_healthy"@, name);
                crate::state::lemma_rollout_phase_other(rs, cur, "draining"@, name);
                crate::state::lemma_rollout_phase_other(rs, cur, "complete"@, name);
            }
        },
        Stage::RolloutCreateWait => {
            let cur = crate::pass::current_name(pre);
            crate::state::law_rollout_count_read_back(rs, cur);
            if name != cur {
                crate::state::lemma_rollout_count_other(rs, cur, name);
            }
        },
        _ => {},
    }
}

/// No name occurs twice.
pub open spec fn distinct_names(names: Seq<Seq<char>>) -> bool {
    forall|i: int, j: int| 0 <= i < names.len() && 0 <= j < names.len() && i != j ==> names[i] != names[j]
}

/// `name` occurs among `names` at position `from` or later.
pub open spec fn named_from(names: Seq<Seq<char>>, from: int, name: Seq<char>) -> bool {
    exists|j: int| from <= j < names.len() && #[trigger] names[j] == name
}

/// The stages of garbage collection.
pub open spec fn collecting(st: Stage) -> bool {
    st is Start || st is GcNext || st is GcWait || st is GcRollouts
}

/// The stages of a spec's turn before its rollout record may change.
pub open spec fn before_rollout_change(st: Stage) -> bool {
    st is SpecStart || st is HealthNext || st is HealthWait || st is AfterHealth || st is RolloutPhase
        || st is RolloutCreateWait
}

/// In the pass at `rec`, the step that may change the rollout record of spec `name` is
/// still ahead: garbage collection is not over, or the turn of the spec called `name` has
/// not reached the point where its rollout record may change.
pub open spec fn rollout_change_ahead(rec: Reconciler, name: Seq<char>) -> bool {
    let names = spec_names(rec.specs_view());
    let pos = rec.spec_position() as int;
    let st = rec.stage_now();
    ||| collecting(st)
    ||| (before_rollout_change(st) && named_from(names, pos, name))
    ||| (!before_rollout_change(st) && !collecting(st) && !(st is Done) && named_from(names, pos + 1, name))
}

proof fn lemma_step_rollout_once(
    pre: Reconciler,
    post: Reconciler,
    outcome: Option<Result<bool, String>>,
    now: u64,
    r: Step,
    name: Seq<char>,
)
    requires
        pre.inv(),
        step_post(pre, post, r),
        crate::pass::step_effect(pre, post, outcome, now, r),
        distinct_names(spec_names(pre.specs_view())),
    ensures
        rollout_change_ahead(post, name) ==> rollout_change_ahead(pre, name),
        rollout_of(post.db_view().rollouts, name) != rollout_of(pre.db_view().rollouts, name) ==> rollout_change_ahead(
            pre,
            name,
        ) && !rollout_change_ahead(post, name),
{
    let rs = pre.db@.rollouts;
    let names = spec_names(pre.specs@);
    let pos = pre.spec_index as int;
    match pre.stage {
        Stage::GcRollouts => {
            let gn = group_names_of(pre.groups@);
            lemma_rollouts_without_of(rs, gn, name);
            if gn.contains(name) {
                let g = choose|g: int| 0 <= g < gn.len() && gn[g] == name;
                assert(pre.groups@[g].spec_name@ == name);
                if named_from(names, 0, name) {
                    let j = choose|j: int| 0 <= j < names.len() && #[trigger] names[j] == name;
                    assert(names.contains(name));
                }
            }
        },
        Stage::AfterHealth | Stage::RolloutPhase | Stage::RolloutCreateWait => {
            let cur = crate::pass::current_name(pre);
            assert(names[pos] == cur);
            crate::state::lemma_rollout_of_without(rs, cur, name);
            crate::state::lemma_rollout_of_without(crate::state::without_rollout(rs, cur), cur, name);
            if name != cur {
                crate::state::lemma_rollout_phase_other(rs, cur, "waiting_healthy"@, name);
                crate::state::lemma_rollout_phase_other(rs, cur, "draining"@, name);
                crate::state::lemma_rollout_phase_other(rs, cur, "complete"@, name);
                crate::state::lemma_rollout_count_other(rs, cur, name);
                let fresh = crate::pass::fresh_rollout(cur, pre.current_hash@);
                assert(crate::state::put_rollout(rs, fresh).drop_last() == crate::state::without_rollout(rs, cur));
                assert(crate::state::put_rollout(crate::state::without_rollout(rs, cur), fresh).drop_last()
                    == crate::state::without_rollout(crate::state::without_rollout(rs, cur), cur));
            } else {
                assert(named_from(names, pos, name));
                if named_from(names, pos + 1, name) {
                    let j = choose|j: int| pos + 1 <= j < names.len() && #[trigger] names[j] == name;
                    assert(names[j] == names[pos]);
                }
            }
        },
        _ => {},
    }
}

/// Over a whole pass, the rollout record of each spec changes at most once, and then only
/// as one step may change it ([`crate::pass::rollout_moves`]): it starts afresh, counts
/// one more created instance, moves on one phase, or goes away (once `complete`, or when
/// the spec is no longer desired). This holds from the start of a pass to any point of it,
/// for desired specs with distinct names.
pub proof fn law_rollout_once_per_pass(
    states: Seq<Reconciler>,
    outcomes: Seq<Option<Result<bool, String>>>,
    steps: Seq<Step>,
    nows: Seq<u64>,
    name: Seq<char>,
)
    requires
        crate::pass::is_run(states, outcomes, steps, nows),
        states[0].inv(),
        states[0].stage_now() == Stage::Start,
        distinct_names(spec_names(states[0].specs_view())),
    ensures
        crate::pass::rollout_moves(
            rollout_of(states[0].db_view().rollouts, name),
            rollout_of(states.last().db_view().rollouts, name),
            spec_names(states[0].specs_view()).contains(name),
        ),
{
    lemma_rollout_once_progress(states, outcomes, steps, nows, name, states.len() - 1);
}

proof fn lemma_rollout_once_progress(
    states: Seq<Reconciler>,
    outcomes: Seq<Option<Result<bool, String>>>,
    steps: Seq<Step>,
    nows: Seq<u64>,
    name: Seq<char>,
    i: int,
)
    requires
        crate::pass::is_run(states, outcomes, steps, nows),
        states[0].inv(),
        states[0].stage_now() == Stage::Start,
        distinct_names(spec_names(states[0].specs_view())),
        0 <= i < states.len(),
    ensures
        states[i].inv(),
        states[i].specs_view() == states[0].specs_view(),
        crate::pass::rollout_moves(
            rollout_of(states[0].db_view().rollouts, name),
            rollout_of(states[i].db_view().rollouts, name),
            spec_names(states[0].specs_view()).contains(name),
        ),
        rollout_change_ahead(states[i], name) ==> rollout_of(states[i].db_view().rollouts, name) == rollout_of(
            states[0].db_view().rollouts,
            name,
        ),
    decreases i,
{
    if i > 0 {
        let k = i - 1;
        lemma_rollout_once_progress(states, outcomes, steps, nows, name, k);
        let r = steps[k];
        assert(states[k + 1] == states[i]);
        assert(step_post(states[k], states[i], r));
        assert(crate::pass::step_effect(states[k], states[i], outcomes[k], nows[k], r));
        lemma_step_rollout_once(states[k], states[i], outcomes[k], nows[k], r, name);
        law_rollout_course(states[k], states[i], outcomes[k], nows[k], r, name);
    }
}

// ----- node liveness -----

/// A pass that runs the node health command for each node and records the node as up
/// when the command succeeds, down otherwise.
pub struct NodeHealthCheck {
    db: StateDB,
    nodes: Vec<String>,
    command: String,
    index: usize,
    waiting: bool,
    actions: Vec<String>,
}

/// Starts a node liveness pass (see [`NodeHealthCheck`]). With an empty command template
/// no node is checked.
pub fn check_node_health(db: StateDB, nodes: Vec<String>, node_health_cmd: &str) -> (r: NodeHealthCheck)
    requires
        db@.wf(),
    ensures
        r.inv(),
        r.db_view() == db@,
        r.actions_view() == Seq::<Seq<char>>::empty(),
        r.nodes_view() == sviews(nodes@),
        r.template() == node_health_cmd@,
        r.position() == 0,
        !r.awaiting(),
{
    let r = NodeHealthCheck {
        db,
        nodes,
        command: String::from_str(node_health_cmd),
        index: 0,
        waiting: false,
        actions: Vec::new(),
    };
    assert(r.actions_view() =~= Seq::<Seq<char>>::empty());
    r
}

impl NodeHealthCheck {
    /// The record as it stands.
    pub closed spec fn db_view(&self) -> DbView {
        self.db@
    }

    /// The action lines logged so far.
    pub closed spec fn actions_view(&self) -> Seq<Seq<char>> {
        sviews(self.actions@)
    }

    /// The nodes to check.
    pub closed spec fn nodes_view(&self) -> Seq<Seq<char>> {
        sviews(self.nodes@)
    }

    /// The node health command template.
    pub closed spec fn template(&self) -> Seq<char> {
        self.command@
    }

    /// How many nodes have been dealt with.
    pub closed spec fn position(&self) -> nat {
        self.index as nat
    }

    /// Waiting for the result of the command for the node at `position()`.
    pub closed spec fn awaiting(&self) -> bool {
        self.waiting
    }

    /// Internal consistency of a pass in progress.
    pub closed spec fn inv(&self) -> bool {
        &&& self.db@.wf()
        &&& self.index <= self.nodes@.len()
        &&& (self.waiting ==> self.index < self.nodes@.len())
    }

    /// The record as it stands, to be saved while the pass goes on.
    pub fn record(&self) -> (r: &StateDB)
        ensures
            r@ == self.db_view(),
    {
        &self.db
    }

    /// Ends the pass, handing back the record and the action lines.
    pub fn into_parts(self) -> (r: (StateDB, Vec<String>))
        ensures
            r.0@ == self.db_view(),
            sviews(r.1@) == self.actions_view(),
    {
        (self.db, self.actions)
    }

    /// Takes the pass one node further. Hand back the result of the command asked for by the
    /// previous step (`Some` exactly when the pass is waiting for one).
    pub fn step(&mut self, outcome: Option<Result<bool, String>>) -> (r: Step)
        requires
            old(self).inv(),
            outcome is Some <==> old(self).awaiting(),
        ensures
            final(self).inv(),
            r is Run <==> final(self).awaiting(),
            final(self).nodes_view() == old(self).nodes_view(),
            final(self).template() == old(self).template(),
            // asking for the command of the next node
            r matches Step::Run(c) ==> c@ == spec_substitute(
                old(self).template(),
                Seq::empty(),
                old(self).nodes_view()[old(self).position() as int],
            ) && final(self).position() == old(self).position() && final(self).db_view() == old(self).db_view()
                && final(self).actions_view() == old(self).actions_view(),
            // recording the result for that node
            outcome matches Some(res) ==> {
                let node = old(self).nodes_view()[old(self).position() as int];
                let up = res == Ok::<bool, String>(true);
                &&& final(self).position() == old(self).position() + 1
                &&& final(self).db_view().nodes == crate::state::set_node_status(
                    old(self).db_view().nodes,
                    node,
                    if up { "up"@ } else { "down"@ },
                )
                &&& final(self).db_view().instances == old(self).db_view().instances
                &&& final(self).db_view().rollouts == old(self).db_view().rollouts
                &&& final(self).actions_view() == if up {
                    old(self).actions_view()
                } else {
                    old(self).actions_view().push("node "@ + node + " is down"@)
                }
            },
            outcome is None ==> (r is Finished <==> (old(self).position() == old(self).nodes_view().len()
                || old(self).template().len() == 0)),
            outcome is Some ==> r is Continue,
            r is Finished ==> final(self).db_view() == old(self).db_view() && final(self).actions_view() == old(self).actions_view(),
            // with no outcome the step only asks for the next node's command, or finishes
            outcome is None ==> final(self).db_view() == old(self).db_view() && final(self).actions_view()
                == old(self).actions_view() && final(self).position() == old(self).position(),
            outcome is None && old(self).position() < old(self).nodes_view().len() && old(self).template().len() > 0
                ==> (r matches Step::Run(c) && c@ == spec_substitute(
                old(self).template(),
                Seq::empty(),
                old(self).nodes_view()[old(self).position() as int],
            )),
    {
        match outcome {
            Some(res) => {
                let i = self.index;
                let up = match res {
                    Ok(b) => b,
                    Err(_) => false,
                };
                if up {
                    self.db.mark_node_up(self.nodes[i].as_str());
                } else {
                    let line = String::from_str("node ").concat(self.nodes[i].as_str()).concat(" is down");
                    log(&mut self.actions, line);
                    self.db.mark_node_down(self.nodes[i].as_str());
                }
                let n = self.nodes.len();
                assert(i < n);
                self.index = i + 1;
                self.waiting = false;
                Step::Continue
            },
            None => {
                if self.index >= self.nodes.len() || self.command.as_str().is_empty() {
                    return Step::Finished;
                }
                let cmd = substitute(self.command.as_str(), "", self.nodes[self.index].as_str());
                self.waiting = true;
                proof {
                    reveal_strlit("");
                    assert(""@ =~= Seq::<char>::empty());
                }
                Step::Run(cmd)
            },
        }
    }
}

} // verus!
