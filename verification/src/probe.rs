//! Health probing of many targets: turning target definitions into checks and reporting
//! results.

use vstd::prelude::*;
use crate::health::{CheckerView, HealthChecker};
use crate::text::{decimal, spec_decimal, str_eq};

verus! {

/// A target definition: its name, check type (`tcp`, `http` or `exec`) and the settings
/// that type uses.
#[derive(Debug)]
pub struct Target {
    pub name: String,
    pub check_type: String,
    pub host: Option<String>,
    pub port: Option<u16>,
    pub path: Option<String>,
    pub command: Option<String>,
}

/// The text of an optional string.
pub open spec fn opt_view(s: Option<String>) -> Option<Seq<char>> {
    match s {
        Some(x) => Some(x@),
        None => None,
    }
}

/// `s`, or `d` when absent.
pub open spec fn or_default(s: Option<Seq<char>>, d: Seq<char>) -> Seq<char> {
    match s {
        Some(x) => x,
        None => d,
    }
}

/// The check a target defines: host defaults to `127.0.0.1` and path to `/`; a port is
/// required for `tcp` and `http`, a command for `exec`.
pub open spec fn spec_build_checker(t: Target) -> Result<CheckerView, Seq<char>> {
    let host = or_default(opt_view(t.host), "127.0.0.1"@);
    if t.check_type@ == "tcp"@ {
        match t.port {
            Some(p) => Ok(CheckerView::Tcp { host, port: p }),
            None => Err("target '"@ + t.name@ + "': tcp check requires port"@),
        }
    } else if t.check_type@ == "http"@ {
        match t.port {
            Some(p) => Ok(CheckerView::Http { host, port: p, path: or_default(opt_view(t.path), "/"@) }),
            None => Err("target '"@ + t.name@ + "': http check requires port"@),
        }
    } else if t.check_type@ == "exec"@ {
        match t.command {
            Some(c) => Ok(CheckerView::Exec { command: c@ }),
            None => Err("target '"@ + t.name@ + "': exec check requires command"@),
        }
    } else {
        Err(
            "target '"@ + t.name@ + "': unknown check type '"@ + t.check_type@
                + "' (expected tcp, http, or exec)"@,
        )
    }
}

/// The host a target names, or the local host when it names none.
pub open spec fn target_host(t: Target) -> Seq<char> {
    match t.host {
        Some(h) => h@,
        None => "127.0.0.1"@,
    }
}

proof fn lemma_check_type_names_differ()
    ensures
        "http"@ != "tcp"@,
        "exec"@ != "tcp"@,
        "exec"@ != "http"@,
{
    reveal_strlit("tcp");
    reveal_strlit("http");
    reveal_strlit("exec");
    assert("exec"@[0] != "http"@[0]);
}

/// An `http` target with a port is checked over HTTP on that port of its host (the local
/// host when it names none), requesting its own path, or `/` when it has none.
pub proof fn law_http_target(t: Target)
    requires
        t.check_type@ == "http"@,
        t.port is Some,
    ensures
        spec_build_checker(t) == Ok::<CheckerView, Seq<char>>(
            CheckerView::Http {
                host: target_host(t),
                port: t.port->Some_0,
                path: match t.path {
                    Some(x) => x@,
                    None => "/"@,
                },
            },
        ),
{
    lemma_check_type_names_differ();
}

/// A `tcp` target with a port is checked by connecting to that port of its host (the local
/// host when it names none).
pub proof fn law_tcp_target(t: Target)
    requires
        t.check_type@ == "tcp"@,
        t.port is Some,
    ensures
        spec_build_checker(t) == Ok::<CheckerView, Seq<char>>(
            CheckerView::Tcp { host: target_host(t), port: t.port->Some_0 },
        ),
{
}

/// An `exec` target with a command is checked by running that command.
pub proof fn law_exec_target(t: Target)
    requires
        t.check_type@ == "exec"@,
        t.command is Some,
    ensures
        spec_build_checker(t) == Ok::<CheckerView, Seq<char>>(CheckerView::Exec { command: t.command->Some_0@ }),
{
    lemma_check_type_names_differ();
}

/// A `tcp` or `http` target without a port, an `exec` target without a command, and a
/// target of any other type are refused, naming the target and what it lacks.
pub proof fn law_incomplete_target_refused(t: Target)
    ensures
        t.check_type@ == "tcp"@ && t.port is None ==> spec_build_checker(t) == Err::<CheckerView, Seq<char>>(
            "target '"@ + t.name@ + "': tcp check requires port"@,
        ),
        t.check_type@ == "http"@ && t.port is None ==> spec_build_checker(t) == Err::<CheckerView, Seq<char>>(
            "target '"@ + t.name@ + "': http check requires port"@,
        ),
        t.check_type@ == "exec"@ && t.command is None ==> spec_build_checker(t) == Err::<CheckerView, Seq<char>>(
            "target '"@ + t.name@ + "': exec check requires command"@,
        ),
        t.check_type@ != "tcp"@ && t.check_type@ != "http"@ && t.check_type@ != "exec"@ ==> spec_build_checker(t)
            == Err::<CheckerView, Seq<char>>(
            "target '"@ + t.name@ + "': unknown check type '"@ + t.check_type@ + "' (expected tcp, http, or exec)"@,
        ),
{
    lemma_check_type_names_differ();
}

/// A copy of an optional string, or `d` when absent.
fn text_or(s: &Option<String>, d: &str) -> (r: String)
    ensures
        r@ == or_default(opt_view(*s), d@),
{
    match s {
        Some(x) => x.clone(),
        None => String::from_str(d),
    }
}

/// The health check for a target.
pub fn build_checker(target: &Target) -> (r: Result<HealthChecker, String>)
    ensures
        match r {
            Ok(c) => spec_build_checker(*target) == Ok::<CheckerView, Seq<char>>(c@),
            Err(e) => spec_build_checker(*target) == Err::<CheckerView, Seq<char>>(e@),
        },
        target.check_type@ == "http"@ && target.port is Some ==> (r matches Ok(c) && c@ == CheckerView::Http {
            host: target_host(*target),
            port: target.port->Some_0,
            path: match target.path {
                Some(x) => x@,
                None => "/"@,
            },
        }),
{
    proof {
        lemma_check_type_names_differ();
    }
    let kind = target.check_type.as_str();
    if str_eq(kind, "tcp") {
        match target.port {
            Some(p) => Ok(HealthChecker::tcp_host(text_or(&target.host, "127.0.0.1"), p)),
            None => Err(
                String::from_str("target '").concat(target.name.as_str()).concat(
                    "': tcp check requires port",
                ),
            ),
        }
    } else if str_eq(kind, "http") {
        match target.port {
            Some(p) => Ok(
                HealthChecker::http(
                    text_or(&target.host, "127.0.0.1"),
                    p,
                    text_or(&target.path, "/"),
                ),
            ),
            None => Err(
                String::from_str("target '").concat(target.name.as_str()).concat(
                    "': http check requires port",
                ),
            ),
        }
    } else if str_eq(kind, "exec") {
        match &target.command {
            Some(c) => Ok(HealthChecker::exec(c.clone())),
            None => Err(
                String::from_str("target '").concat(target.name.as_str()).concat(
                    "': exec check requires command",
                ),
            ),
        }
    } else {
        Err(
            String::from_str("target '").concat(target.name.as_str()).concat(
                "': unknown check type '",
            ).concat(kind).concat("' (expected tcp, http, or exec)"),
        )
    }
}

/// The text-format report of one check.
pub open spec fn spec_status_text(name: Seq<char>, healthy: bool, elapsed_ms: u64) -> Seq<char> {
    name + " "@ + (if healthy {
        "UP"@
    } else {
        "DOWN"@
    }) + " "@ + spec_decimal(elapsed_ms as nat) + "ms"@
}

/// `NAME UP|DOWN Nms`: how the text format reports one check.
pub fn status_text(name: &str, healthy: bool, elapsed_ms: u64) -> (r: String)
    ensures
        r@ == spec_status_text(name@, healthy, elapsed_ms),
{
    let word = if healthy {
        "UP"
    } else {
        "DOWN"
    };
    String::from_str(name).concat(" ").concat(word).concat(" ").concat(decimal(elapsed_ms).as_str()).concat("ms")
}

} // verus!
