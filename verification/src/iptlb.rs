//! The file-driven load balancer: its backends file and the NAT rules it installs.

use vstd::prelude::*;
use std::collections::hash_map::DefaultHasher;
use std::hash::Hasher;
use vstd::std_specs::hash::DefaultHasherAdditionalSpecFns;
use vstd::string::StringSliceAdditionalSpecFns;
use crate::text::{
    chars_of, cviews, decimal, find_char, hex_padded, lines, slice, spec_decimal, spec_hex_padded, spec_lines,
    spec_trim, string_of, sviews, trim_chars, first_index_of,
};

verus! {

// ----- chain names -----

/// `vip` with every `.` and `:` turned into `-`, after `IPTLB-`.
pub open spec fn spec_chain_name(vip: Seq<char>) -> Seq<char> {
    "IPTLB-"@ + Seq::new(vip.len(), |i: int| if vip[i] == '.' || vip[i] == ':' { '-' } else { vip[i] })
}

/// The name of the NAT chain that balances traffic for `vip`.
pub fn chain_name(vip: &str) -> (r: String)
    ensures
        r@ == spec_chain_name(vip@),
{
    let v = chars_of(vip);
    let mut out: Vec<char> = Vec::new();
    let mut i: usize = 0;
    while i < v.len()
        invariant
            v@ == vip@,
            i <= v@.len(),
            out@ == Seq::new(i as nat, |k: int| if v@[k] == '.' || v@[k] == ':' { '-' } else { v@[k] }),
        decreases v.len() - i,
    {
        let c = v[i];
        out.push(if c == '.' || c == ':' { '-' } else { c });
        i += 1;
        assert(out@ =~= Seq::new(i as nat, |k: int| if v@[k] == '.' || v@[k] == ':' { '-' } else { v@[k] }));
    }
    String::from_str("IPTLB-").concat(string_of(&out).as_str())
}

// ----- rules -----

/// The arguments of the `iptables` command that sends every `n`-th packet, starting with
/// packet `i`, to `backend`.
pub open spec fn spec_rule(vip: Seq<char>, port: u16, chain: Seq<char>, n: nat, i: nat, backend: Seq<char>) -> Seq<Seq<char>> {
    seq![
        "-t"@, "nat"@, "-A"@, chain, "-d"@, vip, "-p"@, "tcp"@, "--dport"@, spec_decimal(port as nat),
        "-m"@, "statistic"@, "--mode"@, "nth"@, "--every"@, spec_decimal(n), "--packet"@, spec_decimal(i),
        "-j"@, "DNAT"@, "--to-destination"@, backend,
    ]
}

fn words(parts: &[&str]) -> (r: Vec<String>)
    ensures
        r@.len() == parts@.len(),
        forall|k: int| 0 <= k < parts@.len() ==> #[trigger] r@[k]@ == parts@[k]@,
{
    let mut r: Vec<String> = Vec::new();
    let mut i: usize = 0;
    while i < parts.len()
        invariant
            i <= parts@.len(),
            r@.len() == i,
            forall|k: int| 0 <= k < i ==> #[trigger] r@[k]@ == parts@[k]@,
        decreases parts.len() - i,
    {
        r.push(String::from_str(parts[i]));
        i += 1;
    }
    r
}

fn rule(vip: &str, port: u16, chain: &str, n: usize, i: usize, backend: &str) -> (r: Vec<String>)
    ensures
        sviews(r@) == spec_rule(vip@, port, chain@, n as nat, i as nat, backend@),
{
    let p = decimal(port as u64);
    let ns = decimal(n as u64);
    let is = decimal(i as u64);
    let r = words(&[
        "-t", "nat", "-A", chain, "-d", vip, "-p", "tcp", "--dport", p.as_str(), "-m", "statistic",
        "--mode", "nth", "--every", ns.as_str(), "--packet", is.as_str(), "-j", "DNAT",
        "--to-destination", backend,
    ]);
    assert(sviews(r@) =~= spec_rule(vip@, port, chain@, n as nat, i as nat, backend@));
    r
}

/// Round-robin DNAT rules for `chain`: one rule per backend, the `i`-th taking every
/// `n`-th packet starting at packet `i` (with `n` backends). No backends, no rules.
/// `backends` are the backend addresses as `IP:PORT` text.
pub fn build_rules(vip: &str, port: u16, chain_name: &str, backends: &[String]) -> (r: Result<Vec<Vec<String>>, String>)
    ensures
        r matches Ok(cmds) && cmds@.len() == backends@.len() && forall|i: int|
            0 <= i < backends@.len() ==> sviews(#[trigger] cmds@[i]@) == spec_rule(
                vip@,
                port,
                chain_name@,
                backends@.len() as nat,
                i as nat,
                backends@[i]@,
            ),
{
    let mut cmds: Vec<Vec<String>> = Vec::new();
    let n = backends.len();
    let mut i: usize = 0;
    while i < n
        invariant
            n == backends@.len(),
            i <= n,
            cmds@.len() == i,
            forall|k: int| 0 <= k < i ==> sviews(#[trigger] cmds@[k]@) == spec_rule(
                vip@,
                port,
                chain_name@,
                n as nat,
                k as nat,
                backends@[k]@,
            ),
        decreases n - i,
    {
        cmds.push(rule(vip, port, chain_name, n, i, backends[i].as_str()));
        i += 1;
    }
    Ok(cmds)
}

/// Installs and refreshes the NAT rules. The commands it runs are built here; running
/// them is left to the caller.
pub struct RuleManager;

impl RuleManager {
    /// A rule manager.
    pub fn new() -> (r: RuleManager) {
        RuleManager
    }

    /// `iptables` arguments that list `chain` (succeeds when it exists).
    pub fn list_chain_args(&self, chain: &str) -> (r: Vec<String>)
        ensures
            sviews(r@) == seq!["-t"@, "nat"@, "-L"@, chain@],
    {
        let r = words(&["-t", "nat", "-L", chain]);
        assert(sviews(r@) =~= seq!["-t"@, "nat"@, "-L"@, chain@]);
        r
    }

    /// `iptables` arguments that create `chain`.
    pub fn new_chain_args(&self, chain: &str) -> (r: Vec<String>)
        ensures
            sviews(r@) == seq!["-t"@, "nat"@, "-N"@, chain@],
    {
        let r = words(&["-t", "nat", "-N", chain]);
        assert(sviews(r@) =~= seq!["-t"@, "nat"@, "-N"@, chain@]);
        r
    }

    /// `iptables` arguments that flush `chain`.
    pub fn flush_args(&self, chain: &str) -> (r: Vec<String>)
        ensures
            sviews(r@) == seq!["-t"@, "nat"@, "-F"@, chain@],
    {
        let r = words(&["-t", "nat", "-F", chain]);
        assert(sviews(r@) =~= seq!["-t"@, "nat"@, "-F"@, chain@]);
        r
    }

    /// `iptables` arguments that check (`-C`) or append (`-A`) the `PREROUTING` rule
    /// sending TCP traffic for `vip:port` to `chain`.
    pub fn jump_rule_args(&self, append: bool, vip: &str, port: u16, chain: &str) -> (r: Vec<String>)
        ensures
            sviews(r@) == seq![
                "-t"@, "nat"@, if append { "-A"@ } else { "-C"@ }, "PREROUTING"@, "-d"@, vip@, "-p"@, "tcp"@,
                "--dport"@, spec_decimal(port as nat), "-j"@, chain@,
            ],
    {
        let p = decimal(port as u64);
        let op = if append { "-A" } else { "-C" };
        let r = words(&["-t", "nat", op, "PREROUTING", "-d", vip, "-p", "tcp", "--dport", p.as_str(), "-j", chain]);
        assert(sviews(r@) =~= seq![
            "-t"@, "nat"@, if append { "-A"@ } else { "-C"@ }, "PREROUTING"@, "-d"@, vip@, "-p"@, "tcp"@,
            "--dport"@, spec_decimal(port as nat), "-j"@, chain@,
        ]);
        r
    }
}

/// Words joined by single spaces.
pub open spec fn spec_join(words: Seq<Seq<char>>) -> Seq<char>
    decreases words.len(),
{
    if words.len() == 0 {
        Seq::empty()
    } else if words.len() == 1 {
        words[0]
    } else {
        spec_join(words.drop_last()) + " "@ + words.last()
    }
}

/// Joins words with single spaces (`[String]::join(" ")`).
pub fn join_words(words: &[String]) -> (r: String)
    ensures
        r@ == spec_join(sviews(words@)),
{
    let mut r = String::new();
    let mut i: usize = 0;
    assert(sviews(words@).take(0) =~= Seq::<Seq<char>>::empty());
    while i < words.len()
        invariant
            i <= words@.len(),
            r@ == spec_join(sviews(words@).take(i as int)),
        decreases words.len() - i,
    {
        let ghost t = sviews(words@).take(i + 1);
        assert(t.drop_last() =~= sviews(words@).take(i as int));
        if i == 0 {
            r = words[0].clone();
            assert(t =~= seq![words@[0]@]);
        } else {
            r = r.concat(" ").concat(words[i].as_str());
        }
        i += 1;
    }
    assert(sviews(words@).take(i as int) =~= sviews(words@));
    r
}

// ----- the backends file -----

/// A backend line of the backends file, with the two readings tried for it.
#[derive(Debug)]
pub struct BackendCandidate {
    /// Line number, counting from 1.
    pub line: usize,
    /// The address as written (`IP:PORT`).
    pub address: String,
    /// The address with the default port appended (`IP` + `:80`).
    pub with_default_port: String,
}

/// A line with any `#` comment removed, then trimmed.
pub open spec fn backend_text(l: Seq<char>) -> Seq<char> {
    match first_index_of(l, '#') {
        Some(k) => spec_trim(l.take(k)),
        None => spec_trim(l),
    }
}

/// The backend lines of a backends file, in order: every line that still has text once
/// comments (from `#` to the end of the line) and surrounding white space are removed.
pub open spec fn spec_backend_lines(content: Seq<char>) -> Seq<(nat, Seq<char>)> {
    let ls = spec_lines(content);
    Seq::new(ls.len(), |i: int| ((i + 1) as nat, backend_text(ls[i]))).filter(|p: (nat, Seq<char>)| p.1.len() > 0)
}

/// Reads the backend lines of a backends file (see [`spec_backend_lines`]); the caller parses
/// each address, trying `address` first and `with_default_port` second.
pub fn parse_backends(content: &str) -> (r: Vec<BackendCandidate>)
    ensures
        r@.len() == spec_backend_lines(content@).len(),
        forall|k: int| 0 <= k < r@.len() ==> {
            &&& (#[trigger] r@[k]).line as nat == spec_backend_lines(content@)[k].0
            &&& r@[k].address@ == spec_backend_lines(content@)[k].1
            &&& r@[k].with_default_port@ == r@[k].address@ + ":80"@
        },
{
    let ls = lines(&chars_of(content));
    let ghost all = Seq::new(cviews(ls@).len(), |i: int| ((i + 1) as nat, backend_text(cviews(ls@)[i])));
    let ghost keep = |p: (nat, Seq<char>)| p.1.len() > 0;
    let mut r: Vec<BackendCandidate> = Vec::new();
    let ghost mut rv: Seq<(nat, Seq<char>)> = Seq::empty();
    let mut i: usize = 0;
    while i < ls.len()
        invariant
            cviews(ls@) == spec_lines(content@),
            all == Seq::new(cviews(ls@).len(), |i: int| ((i + 1) as nat, backend_text(cviews(ls@)[i]))),
            keep == (|p: (nat, Seq<char>)| p.1.len() > 0),
            i <= ls@.len(),
            rv == all.take(i as int).filter(keep),
            r@.len() == rv.len(),
            forall|k: int| 0 <= k < r@.len() ==> {
                &&& (#[trigger] r@[k]).line as nat == rv[k].0
                &&& r@[k].address@ == rv[k].1
                &&& r@[k].with_default_port@ == r@[k].address@ + ":80"@
            },
        decreases ls.len() - i,
    {
        let ghost t = all.take(i as int);
        proof {
            assert(all.take(i + 1) =~= t.push(all[i as int]));
            t.lemma_filter_push(all[i as int], keep);
        }
        let l = &ls[i];
        let cut = match find_char(l, '#') {
            Some(k) => slice(l, 0, k),
            None => slice(l, 0, l.len()),
        };
        let text = trim_chars(&cut);
        proof {
            assert(l@ == cviews(ls@)[i as int]);
            match first_index_of(l@, '#') {
                Some(k) => { assert(cut@ =~= l@.take(k)); },
                None => { assert(cut@ =~= l@); },
            }
            assert(text@ == all[i as int].1);
        }
        if text.len() > 0 {
            let a = string_of(&text);
            let d = a.clone().concat(":80");
            assert(i + 1 <= ls.len());
            r.push(BackendCandidate { line: i + 1, address: a, with_default_port: d });
            proof {
                rv = rv.push(all[i as int]);
            }
        }
        i += 1;
    }
    assert(all.take(i as int) =~= all);
    r
}

// ----- change detection -----

/// The hash input for a list of backend addresses: per address, its UTF-8 bytes and then
/// the byte `0xff`, as hashing a string writes them.
pub open spec fn backend_hash_writes(backends: Seq<String>) -> Seq<Seq<u8>>
    decreases backends.len(),
{
    if backends.len() == 0 {
        Seq::empty()
    } else {
        backend_hash_writes(backends.drop_last()) + seq![vstd::utf8::encode_utf8(backends.last()@), seq![0xffu8]]
    }
}

/// A fingerprint of the backend list (lowercase hex of the default hasher's result), used
/// to notice when the list changed.
pub fn hash_backends(backends: &[String]) -> (r: String)
    ensures
        r@ == spec_hex_padded(DefaultHasher::spec_finish(backend_hash_writes(backends@)) as nat, 0),
{
    let mut hasher = DefaultHasher::new();
    let mut i: usize = 0;
    let terminator: [u8; 1] = [0xff];
    while i < backends.len()
        invariant
            i <= backends@.len(),
            hasher@ == backend_hash_writes(backends@.take(i as int)),
            terminator@ == seq![0xffu8],
        decreases backends.len() - i,
    {
        assert(backends@.take(i + 1).drop_last() =~= backends@.take(i as int));
        hasher.write(backends[i].as_str().as_bytes());
        hasher.write(&terminator);
        assert(hasher@ =~= backend_hash_writes(backends@.take(i + 1)));
        i += 1;
    }
    assert(backends@.take(i as int) =~= backends@);
    hex_padded(hasher.finish(), 0)
}

} // verus!

verus! {

// ----- installing rules, one iptables run at a time -----

/// What a rule installation asks of its caller next.
#[derive(Debug)]
pub enum RuleStep {
    /// Run `iptables` with these arguments and hand back whether it succeeded (`Err` when it
    /// could not be started); with `true`, its output is captured rather than shown.
    Run(Vec<String>, bool),
    /// The installation is over and succeeded.
    Done,
    /// The installation failed, for this reason.
    Failed(String),
}

fn copy_words(v: &Vec<String>) -> (r: Vec<String>)
    ensures
        sviews(r@) == sviews(v@),
{
    let mut r: Vec<String> = Vec::new();
    let mut i: usize = 0;
    while i < v.len()
        invariant
            i <= v@.len(),
            sviews(r@) == sviews(v@).take(i as int),
        decreases v.len() - i,
    {
        let ghost r0 = r@;
        let x = v[i].clone();
        r.push(x);
        assert(sviews(r@) =~= sviews(r0).push(x@));
        i += 1;
    }
    assert(sviews(v@).take(i as int) =~= sviews(v@));
    r
}

/// Makes sure a chain or rule exists: check for it quietly, and create it when the check
/// fails.
pub struct EnsureRule {
    check: Vec<String>,
    create: Vec<String>,
    failure: String,
    stage: usize,
}

impl EnsureRule {
    /// The arguments of the check.
    pub closed spec fn check_view(&self) -> Seq<Seq<char>> {
        sviews(self.check@)
    }

    /// The arguments of the creation.
    pub closed spec fn create_view(&self) -> Seq<Seq<char>> {
        sviews(self.create@)
    }

    /// The reason given when the creation fails.
    pub closed spec fn failure_view(&self) -> Seq<char> {
        self.failure@
    }

    /// 0: not begun; 1: waiting for the check; 2: waiting for the creation; 3: over.
    pub closed spec fn stage_view(&self) -> nat {
        self.stage as nat
    }

    /// Takes the installation one `iptables` run further. `outcome` is the result of the run
    /// asked for by the previous step (`Some` exactly when one was asked for and is awaited).
    pub fn step(&mut self, outcome: Option<Result<bool, String>>) -> (r: RuleStep)
        requires
            old(self).stage_view() <= 3,
            outcome is Some <==> (old(self).stage_view() == 1 || old(self).stage_view() == 2),
        ensures
            final(self).check_view() == old(self).check_view(),
            final(self).create_view() == old(self).create_view(),
            final(self).failure_view() == old(self).failure_view(),
            final(self).stage_view() <= 3,
            old(self).stage_view() == 0 ==> (r matches RuleStep::Run(a, q) && sviews(a@) == old(self).check_view()
                && q) && final(self).stage_view() == 1,
            old(self).stage_view() == 3 ==> r is Done && final(self).stage_view() == 3,
            outcome matches Some(Err(e)) ==> (r matches RuleStep::Failed(m) && m@ == "cannot run iptables: "@
                + e@) && final(self).stage_view() == 3,
            outcome == Some(Ok::<bool, String>(true)) ==> r is Done && final(self).stage_view() == 3,
            old(self).stage_view() == 1 && outcome == Some(Ok::<bool, String>(false)) ==> (r matches RuleStep::Run(
                a,
                q,
            ) && sviews(a@) == old(self).create_view() && !q) && final(self).stage_view() == 2,
            old(self).stage_view() == 2 && outcome == Some(Ok::<bool, String>(false)) ==> (r matches RuleStep::Failed(
                m,
            ) && m@ == old(self).failure_view()) && final(self).stage_view() == 3,
    {
        match outcome {
            None => {
                if self.stage == 0 {
                    self.stage = 1;
                    RuleStep::Run(copy_words(&self.check), true)
                } else {
                    RuleStep::Done
                }
            },
            Some(Err(e)) => {
                self.stage = 3;
                RuleStep::Failed(String::from_str("cannot run iptables: ").concat(e.as_str()))
            },
            Some(Ok(true)) => {
                self.stage = 3;
                RuleStep::Done
            },
            Some(Ok(false)) => {
                if self.stage == 1 {
                    self.stage = 2;
                    RuleStep::Run(copy_words(&self.create), false)
                } else {
                    self.stage = 3;
                    RuleStep::Failed(self.failure.clone())
                }
            },
        }
    }
}

/// Flushes a chain, then appends each rule in turn, stopping at the first failure.
pub struct ApplyRules {
    chain: String,
    cmds: Vec<Vec<String>>,
    stage: usize,
    index: usize,
}

/// The words of each command.
pub open spec fn command_views(cmds: Seq<Vec<String>>) -> Seq<Seq<Seq<char>>> {
    cmds.map_values(|c: Vec<String>| sviews(c@))
}

impl ApplyRules {
    /// The chain the rules go to.
    pub closed spec fn chain_view(&self) -> Seq<char> {
        self.chain@
    }

    /// The `iptables` arguments of each rule, in order.
    pub closed spec fn commands_view(&self) -> Seq<Seq<Seq<char>>> {
        command_views(self.cmds@)
    }

    /// 0: not begun; 1: waiting for the flush; 2: waiting for the rule at `position()`;
    /// 3: over.
    pub closed spec fn stage_view(&self) -> nat {
        self.stage as nat
    }

    /// The rule being appended.
    pub closed spec fn position(&self) -> nat {
        self.index as nat
    }

    /// Takes the installation one `iptables` run further. `outcome` is the result of the run
    /// asked for by the previous step (`Some` exactly when one was asked for and is awaited).
    pub fn step(&mut self, outcome: Option<Result<bool, String>>) -> (r: RuleStep)
        requires
            old(self).stage_view() <= 3,
            old(self).stage_view() == 2 ==> old(self).position() < old(self).commands_view().len(),
            outcome is Some <==> (old(self).stage_view() == 1 || old(self).stage_view() == 2),
        ensures
            final(self).chain_view() == old(self).chain_view(),
            final(self).commands_view() == old(self).commands_view(),
            final(self).stage_view() <= 3,
            final(self).stage_view() == 2 ==> final(self).position() < final(self).commands_view().len(),
            old(self).stage_view() == 0 ==> (r matches RuleStep::Run(a, q) && sviews(a@) == seq![
                "-t"@,
                "nat"@,
                "-F"@,
                old(self).chain_view(),
            ] && !q) && final(self).stage_view() == 1,
            old(self).stage_view() == 3 ==> r is Done && final(self).stage_view() == 3,
            old(self).stage_view() == 1 ==> match outcome {
                Some(Err(e)) => (r matches RuleStep::Failed(m) && m@ == "cannot flush chain: "@ + e@)
                    && final(self).stage_view() == 3,
                Some(Ok(false)) => (r matches RuleStep::Failed(m) && m@ == "failed to flush chain "@
                    + old(self).chain_view()) && final(self).stage_view() == 3,
                _ => if old(self).commands_view().len() == 0 {
                    r is Done && final(self).stage_view() == 3
                } else {
                    (r matches RuleStep::Run(a, q) && sviews(a@) == old(self).commands_view()[0] && !q)
                        && final(self).stage_view() == 2 && final(self).position() == 0
                },
            },
            old(self).stage_view() == 2 ==> match outcome {
                Some(Err(e)) => (r matches RuleStep::Failed(m) && m@ == "cannot add DNAT rule: "@ + e@)
                    && final(self).stage_view() == 3,
                Some(Ok(false)) => (r matches RuleStep::Failed(m) && m@ == "failed to add rule: iptables "@
                    + spec_join(old(self).commands_view()[old(self).position() as int]))
                    && final(self).stage_view() == 3,
                _ => if old(self).position() + 1 < old(self).commands_view().len() {
                    (r matches RuleStep::Run(a, q) && sviews(a@) == old(self).commands_view()[old(self).position()
                        + 1int] && !q) && final(self).stage_view() == 2 && final(self).position()
                        == old(self).position() + 1
                } else {
                    r is Done && final(self).stage_view() == 3
                },
            },
    {
        match outcome {
            None => {
                if self.stage == 0 {
                    self.stage = 1;
                    let r = words(&["-t", "nat", "-F", self.chain.as_str()]);
                    assert(sviews(r@) =~= seq!["-t"@, "nat"@, "-F"@, self.chain@]);
                    RuleStep::Run(r, false)
                } else {
                    RuleStep::Done
                }
            },
            Some(Err(e)) => {
                let reason = if self.stage == 1 { "cannot flush chain: " } else { "cannot add DNAT rule: " };
                self.stage = 3;
                RuleStep::Failed(String::from_str(reason).concat(e.as_str()))
            },
            Some(Ok(false)) => {
                let m = if self.stage == 1 {
                    String::from_str("failed to flush chain ").concat(self.chain.as_str())
                } else {
                    String::from_str("failed to add rule: iptables ").concat(
                        join_words(self.cmds[self.index].as_slice()).as_str(),
                    )
                };
                self.stage = 3;
                RuleStep::Failed(m)
            },
            Some(Ok(true)) => {
                let next = if self.stage == 1 {
                    0
                } else {
                    let n = self.cmds.len();
                    assert(self.index < n);
                    self.index + 1
                };
                if next < self.cmds.len() {
                    self.stage = 2;
                    self.index = next;
                    RuleStep::Run(copy_words(&self.cmds[next]), false)
                } else {
                    self.stage = 3;
                    RuleStep::Done
                }
            },
        }
    }
}

fn copy_commands(cmds: &[Vec<String>]) -> (r: Vec<Vec<String>>)
    ensures
        command_views(r@) == command_views(cmds@),
{
    let mut r: Vec<Vec<String>> = Vec::new();
    let mut i: usize = 0;
    while i < cmds.len()
        invariant
            i <= cmds@.len(),
            command_views(r@) == command_views(cmds@).take(i as int),
        decreases cmds.len() - i,
    {
        let ghost r0 = r@;
        let c = copy_words(&cmds[i]);
        r.push(c);
        assert(command_views(r@) =~= command_views(r0).push(sviews(c@)));
        i += 1;
    }
    assert(command_views(cmds@).take(i as int) =~= command_views(cmds@));
    r
}

impl RuleManager {
    /// Makes sure `chain` exists in the NAT table: lists it, and creates it when listing
    /// fails.
    pub fn ensure_chain(&self, chain: &str) -> (r: EnsureRule)
        ensures
            r.check_view() == seq!["-t"@, "nat"@, "-L"@, chain@],
            r.create_view() == seq!["-t"@, "nat"@, "-N"@, chain@],
            r.failure_view() == "iptables -t nat -N "@ + chain@ + " failed"@,
            r.stage_view() == 0,
    {
        EnsureRule {
            check: self.list_chain_args(chain),
            create: self.new_chain_args(chain),
            failure: String::from_str("iptables -t nat -N ").concat(chain).concat(" failed"),
            stage: 0,
        }
    }

    /// Makes sure the `PREROUTING` rule sending TCP traffic for `vip:port` to `chain`
    /// exists: checks for it, and appends it when the check fails.
    pub fn ensure_jump_rule(&self, vip: &str, port: u16, chain: &str) -> (r: EnsureRule)
        ensures
            r.check_view() == seq![
                "-t"@, "nat"@, "-C"@, "PREROUTING"@, "-d"@, vip@, "-p"@, "tcp"@, "--dport"@,
                spec_decimal(port as nat), "-j"@, chain@,
            ],
            r.create_view() == seq![
                "-t"@, "nat"@, "-A"@, "PREROUTING"@, "-d"@, vip@, "-p"@, "tcp"@, "--dport"@,
                spec_decimal(port as nat), "-j"@, chain@,
            ],
            r.failure_view() == "failed to add jump rule to PREROUTING"@,
            r.stage_view() == 0,
    {
        EnsureRule {
            check: self.jump_rule_args(false, vip, port, chain),
            create: self.jump_rule_args(true, vip, port, chain),
            failure: String::from_str("failed to add jump rule to PREROUTING"),
            stage: 0,
        }
    }

    /// Replaces the rules of `chain` with `cmds`: flushes the chain, then appends each rule
    /// in order, stopping at the first failure.
    pub fn apply_rules(&self, chain: &str, cmds: &[Vec<String>]) -> (r: ApplyRules)
        ensures
            r.chain_view() == chain@,
            r.commands_view() == command_views(cmds@),
            r.stage_view() == 0,
    {
        ApplyRules { chain: String::from_str(chain), cmds: copy_commands(cmds), stage: 0, index: 0 }
    }
}

} // verus!
