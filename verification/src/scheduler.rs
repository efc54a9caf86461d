//! Placement of new instances on the least-loaded node.

use vstd::prelude::*;
use crate::text::{hex_padded, spec_hex_padded, str_eq, sviews};

verus! {

/// Placement strategy.
#[derive(Clone, Copy, Debug, PartialEq, Eq, Structural)]
pub enum Scheduler {
    FirstFit,
    BestFit,
}

/// The error text for an unknown strategy name.
pub open spec fn unknown_scheduler_message(s: Seq<char>) -> Seq<char> {
    "unknown scheduler '"@ + s + "', expected 'first-fit' or 'best-fit'"@
}

impl Scheduler {
    /// Parses a strategy name: `first-fit` or `best-fit`.
    pub fn from_str(s: &str) -> (r: Result<Scheduler, String>)
        ensures
            s@ == "first-fit"@ ==> r == Ok::<Scheduler, String>(Scheduler::FirstFit),
            s@ == "best-fit"@ ==> r == Ok::<Scheduler, String>(Scheduler::BestFit),
            s@ != "first-fit"@ && s@ != "best-fit"@ ==> r is Err && r->Err_0@
                == unknown_scheduler_message(s@),
    {
        proof {
            reveal_strlit("first-fit");
            reveal_strlit("best-fit");
            assert("first-fit"@[0] != "best-fit"@[0]);
        }
        if str_eq(s, "first-fit") {
            Ok(Scheduler::FirstFit)
        } else if str_eq(s, "best-fit") {
            Ok(Scheduler::BestFit)
        } else {
            let msg = String::from_str("unknown scheduler '").concat(s).concat(
                "', expected 'first-fit' or 'best-fit'",
            );
            Err(msg)
        }
    }
}

/// Where a new instance goes and what it is called.
#[derive(Debug)]
pub struct ScheduleResult {
    pub node: String,
    pub instance_id: String,
}

/// The load recorded for node `n`: the last entry naming it, or 0 when none does.
pub open spec fn load_of(loads: Seq<(Seq<char>, u32)>, n: Seq<char>) -> u32
    decreases loads.len(),
{
    if loads.len() == 0 {
        0
    } else if loads.last().0 == n {
        loads.last().1
    } else {
        load_of(loads.drop_last(), n)
    }
}

/// The text of a load table.
pub open spec fn lviews(loads: Seq<(String, u32)>) -> Seq<(Seq<char>, u32)> {
    loads.map_values(|p: (String, u32)| (p.0@, p.1))
}

/// Node `a` (at load `la`) goes before node `b` (at load `lb`): lower load first, then lower index.
pub open spec fn ranks_before(la: u32, a: int, lb: u32, b: int) -> bool {
    la < lb || (la == lb && a < b)
}

/// `order` lists every index of `keys` exactly once, by ascending key, ties by ascending index.
pub open spec fn is_load_order(keys: Seq<u32>, order: Seq<usize>) -> bool {
    &&& order.len() == keys.len()
    &&& forall|i: int| 0 <= i < order.len() ==> order[i] < keys.len()
    &&& forall|k: usize| k < keys.len() ==> #[trigger] order.contains(k)
    &&& forall|i: int, j: int|
        0 <= i < j < order.len() ==> ranks_before(
            keys[order[i] as int],
            order[i] as int,
            keys[order[j] as int],
            order[j] as int,
        )
}

/// The load of each node, in node order.
pub open spec fn node_keys(nodes: Seq<Seq<char>>, loads: Seq<(Seq<char>, u32)>) -> Seq<u32> {
    Seq::new(nodes.len(), |i: int| load_of(loads, nodes[i]))
}

/// The instance name for the `index`-th instance of a spec: `<spec>-<index as 8 hex digits>`.
pub open spec fn instance_name(spec_name: Seq<char>, index: u32) -> Seq<char> {
    spec_name + "-"@ + spec_hex_padded(index as nat, 8)
}

/// Different indexes give different instance names.
pub proof fn lemma_instance_name_injective(spec_name: Seq<char>, a: u32, b: u32)
    requires
        instance_name(spec_name, a) == instance_name(spec_name, b),
    ensures
        a == b,
{
    reveal_strlit("-");
    let k: int = (spec_name.len() + 1) as int;
    let x = spec_hex_padded(a as nat, 8);
    let y = spec_hex_padded(b as nat, 8);
    assert(instance_name(spec_name, a).skip(k) =~= x);
    assert(instance_name(spec_name, b).skip(k) =~= y);
    crate::text::lemma_hex_padded_value(a as nat, 8);
    crate::text::lemma_hex_padded_value(b as nat, 8);
}

/// Node `j` is a least-loaded node, and the first such in node order.
pub open spec fn is_first_least_loaded(nodes: Seq<Seq<char>>, loads: Seq<(Seq<char>, u32)>, j: int) -> bool {
    &&& 0 <= j < nodes.len()
    &&& forall|k: int|
        0 <= k < nodes.len() && k != j ==> ranks_before(
            load_of(loads, nodes[j]),
            j,
            load_of(loads, nodes[k]),
            k,
        )
}

fn load_lookup(loads: &[(String, u32)], n: &String) -> (r: u32)
    ensures
        r == load_of(lviews(loads@), n@),
{
    let mut r: u32 = 0;
    let mut i: usize = 0;
    while i < loads.len()
        invariant
            i <= loads@.len(),
            r == load_of(lviews(loads@).take(i as int), n@),
        decreases loads.len() - i,
    {
        assert(lviews(loads@).take(i + 1).drop_last() =~= lviews(loads@).take(i as int));
        if loads[i].0 == *n {
            r = loads[i].1;
        }
        i += 1;
    }
    assert(lviews(loads@).take(i as int) =~= lviews(loads@));
    r
}

fn node_loads_of(nodes: &[String], loads: &[(String, u32)]) -> (r: Vec<u32>)
    ensures
        r@ == node_keys(sviews(nodes@), lviews(loads@)),
{
    let mut r: Vec<u32> = Vec::new();
    let mut i: usize = 0;
    while i < nodes.len()
        invariant
            i <= nodes@.len(),
            r@ == node_keys(sviews(nodes@), lviews(loads@)).take(i as int),
        decreases nodes.len() - i,
    {
        r.push(load_lookup(loads, &nodes[i]));
        i += 1;
        assert(r@ =~= node_keys(sviews(nodes@), lviews(loads@)).take(i as int));
    }
    assert(node_keys(sviews(nodes@), lviews(loads@)).take(i as int) =~= node_keys(sviews(nodes@), lviews(loads@)));
    r
}

/// Indices of `keys` sorted by (key, index), by insertion.
fn order_by_load(keys: &Vec<u32>) -> (order: Vec<usize>)
    ensures
        is_load_order(keys@, order@),
{
    let mut order: Vec<usize> = Vec::new();
    let mut i: usize = 0;
    while i < keys.len()
        invariant
            i <= keys@.len(),
            order@.len() == i,
            forall|a: int| 0 <= a < order@.len() ==> order@[a] < i,
            forall|k: usize| k < i ==> #[trigger] order@.contains(k),
            forall|a: int, b: int|
                0 <= a < b < order@.len() ==> ranks_before(
                    keys@[order@[a] as int],
                    order@[a] as int,
                    keys@[order@[b] as int],
                    order@[b] as int,
                ),
        decreases keys.len() - i,
    {
        let key = keys[i];
        let mut pos: usize = 0;
        while pos < order.len() && keys[order[pos]] <= key
            invariant
                pos <= order@.len(),
                forall|a: int| 0 <= a < order@.len() ==> order@[a] < i,
                i < keys@.len(),
                key == keys@[i as int],
                forall|a: int| 0 <= a < pos ==> keys@[order@[a] as int] <= key,
            decreases order.len() - pos,
        {
            pos += 1;
        }
        proof {
            // everything from `pos` on has a larger load: the list is sorted by load first
            assert forall|a: int| pos <= a < order@.len() implies keys@[order@[a] as int] > key by {
                if a > pos as int {
                    assert(ranks_before(
                        keys@[order@[pos as int] as int],
                        order@[pos as int] as int,
                        keys@[order@[a] as int],
                        order@[a] as int,
                    ));
                }
            }
        }
        let ghost old_order = order@;
        order.insert(pos, i);
        proof {
            assert forall|k: usize| k < i + 1 implies #[trigger] order@.contains(k) by {
                if k == i {
                    assert(order@[pos as int] == i);
                } else {
                    assert(old_order.contains(k));
                    let w = choose|w: int| 0 <= w < old_order.len() && old_order[w] == k;
                    if w < pos {
                        assert(order@[w] == k);
                    } else {
                        assert(order@[w + 1] == k);
                    }
                }
            }
        }
        i += 1;
    }
    order
}

/// Node indices from least to most loaded, ties by position in `nodes`.
pub fn first_fit_order(nodes: &[String], node_loads: &[(String, u32)]) -> (order: Vec<usize>)
    ensures
        is_load_order(node_keys(sviews(nodes@), lviews(node_loads@)), order@),
{
    let keys = node_loads_of(nodes, node_loads);
    order_by_load(&keys)
}

/// Node indices sorted by load alone; the sort is stable, so equal loads keep their node order.
pub fn best_fit_order(nodes: &[String], node_loads: &[(String, u32)]) -> (order: Vec<usize>)
    ensures
        is_load_order(node_keys(sviews(nodes@), lviews(node_loads@)), order@),
{
    let keys = node_loads_of(nodes, node_loads);
    order_by_load(&keys)
}

/// Places the `next_index`-th instance of `spec_name` on the first least-loaded node.
/// Loads not listed for a node count as 0.
pub fn schedule(
    strategy: &Scheduler,
    nodes: &[String],
    node_loads: &[(String, u32)],
    spec_name: &str,
    next_index: u32,
) -> (r: Option<ScheduleResult>)
    ensures
        r is None <==> nodes@.len() == 0,
        r matches Some(res) ==> {
            &&& exists|j: int| is_first_least_loaded(sviews(nodes@), lviews(node_loads@), j) && res.node@ == nodes@[j]@
            &&& res.instance_id@ == instance_name(spec_name@, next_index)
        },
{
    if nodes.len() == 0 {
        return None;
    }
    let order = match strategy {
        Scheduler::FirstFit => first_fit_order(nodes, node_loads),
        Scheduler::BestFit => best_fit_order(nodes, node_loads),
    };
    let j = order[0];
    proof {
        let keys = node_keys(sviews(nodes@), lviews(node_loads@));
        assert forall|k: int| 0 <= k < nodes@.len() && k != j implies ranks_before(
            load_of(lviews(node_loads@), sviews(nodes@)[j as int]),
            j as int,
            load_of(lviews(node_loads@), sviews(nodes@)[k]),
            k,
        ) by {
            assert(order@.contains(k as usize));
            let w = choose|w: int| 0 <= w < order@.len() && order@[w] == k as usize;
            assert(order@[0] == j);
            assert(w != 0);
            assert(keys[j as int] == load_of(lviews(node_loads@), sviews(nodes@)[j as int]));
            assert(keys[k] == load_of(lviews(node_loads@), sviews(nodes@)[k]));
        }
        assert(is_first_least_loaded(sviews(nodes@), lviews(node_loads@), j as int));
    }
    let id = String::from_str(spec_name).concat("-").concat(hex_padded(next_index as u64, 8).as_str());
    Some(ScheduleResult { node: nodes[j].clone(), instance_id: id })
}

} // verus!

verus! {

/// Each node with its load taken from `loads` (the last entry naming it; 0 when none does).
pub fn loads_for_nodes(nodes: &[String], loads: &[(String, u32)]) -> (r: Vec<(String, u32)>)
    ensures
        r@.len() == nodes@.len(),
        forall|i: int|
            0 <= i < nodes@.len() ==> (#[trigger] r@[i]).0@ == nodes@[i]@ && r@[i].1 == load_of(
                lviews(loads@),
                nodes@[i]@,
            ),
{
    let mut r: Vec<(String, u32)> = Vec::new();
    let mut i: usize = 0;
    while i < nodes.len()
        invariant
            i <= nodes@.len(),
            r@.len() == i,
            forall|k: int|
                0 <= k < i ==> (#[trigger] r@[k]).0@ == nodes@[k]@ && r@[k].1 == load_of(
                    lviews(loads@),
                    nodes@[k]@,
                ),
        decreases nodes.len() - i,
    {
        let l = load_lookup(loads, &nodes[i]);
        r.push((nodes[i].clone(), l));
        i += 1;
    }
    r
}

} // verus!
