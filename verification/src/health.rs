//! Health checks: what is checked, the HTTP request sent and how its reply is judged.
//! Connecting and running commands is left to the caller.

use vstd::prelude::*;
use crate::text::{chars_of, cviews, is_whitespace, is_ws};

verus! {

/// A health check.
#[derive(Debug)]
pub enum HealthChecker {
    /// Healthy when a TCP connection to `host:port` succeeds.
    Tcp { host: String, port: u16 },
    /// Healthy when `GET path` on `host:port` answers with a 2xx or 3xx status.
    Http { host: String, port: u16, path: String },
    /// Healthy when `sh -c command` exits with status 0.
    Exec { command: String },
}

/// The content of a health check.
pub enum CheckerView {
    Tcp { host: Seq<char>, port: u16 },
    Http { host: Seq<char>, port: u16, path: Seq<char> },
    Exec { command: Seq<char> },
}

impl View for HealthChecker {
    type V = CheckerView;

    open spec fn view(&self) -> CheckerView {
        match self {
            HealthChecker::Tcp { host, port } => CheckerView::Tcp { host: host@, port: *port },
            HealthChecker::Http { host, port, path } => CheckerView::Http {
                host: host@,
                port: *port,
                path: path@,
            },
            HealthChecker::Exec { command } => CheckerView::Exec { command: command@ },
        }
    }
}

impl HealthChecker {
    /// A TCP check of `port` on the local host.
    pub fn tcp(port: u16) -> (r: HealthChecker)
        ensures
            r@ == (CheckerView::Tcp { host: "127.0.0.1"@, port }),
    {
        HealthChecker::Tcp { host: String::from_str("127.0.0.1"), port }
    }

    /// A TCP check of `port` on `host`.
    pub fn tcp_host(host: String, port: u16) -> (r: HealthChecker)
        ensures
            r@ == (CheckerView::Tcp { host: host@, port }),
    {
        HealthChecker::Tcp { host, port }
    }

    /// An HTTP check of `path` on `host:port`.
    pub fn http(host: String, port: u16, path: String) -> (r: HealthChecker)
        ensures
            r@ == (CheckerView::Http { host: host@, port, path: path@ }),
    {
        HealthChecker::Http { host, port, path }
    }

    /// A check that runs `command` through the shell.
    pub fn exec(command: String) -> (r: HealthChecker)
        ensures
            r@ == (CheckerView::Exec { command: command@ }),
    {
        HealthChecker::Exec { command }
    }

    /// A copy of this check.
    pub fn duplicate(&self) -> (r: HealthChecker)
        ensures
            r@ == self@,
    {
        match self {
            HealthChecker::Tcp { host, port } => HealthChecker::Tcp { host: host.clone(), port: *port },
            HealthChecker::Http { host, port, path } => HealthChecker::Http {
                host: host.clone(),
                port: *port,
                path: path.clone(),
            },
            HealthChecker::Exec { command } => HealthChecker::Exec { command: command.clone() },
        }
    }
}

/// The request an HTTP check sends.
pub open spec fn spec_http_request(path: Seq<char>, host: Seq<char>) -> Seq<char> {
    "GET "@ + path + " HTTP/1.0\r\nHost: "@ + host + "\r\nConnection: close\r\n\r\n"@
}

/// The HTTP/1.0 request for `path` on `host`, closing the connection after the reply.
pub fn http_request(path: &str, host: &str) -> (r: String)
    ensures
        r@ == spec_http_request(path@, host@),
{
    String::from_str("GET ").concat(path).concat(" HTTP/1.0\r\nHost: ").concat(host).concat(
        "\r\nConnection: close\r\n\r\n",
    )
}

/// The white-space separated words of `s`, in order (`str::split_whitespace`): a character
/// that is not white space continues the word of the character before it, if that one is
/// not white space either, and starts a new word otherwise.
pub open spec fn ws_words(s: Seq<char>) -> Seq<Seq<char>>
    decreases s.len(),
{
    if s.len() == 0 {
        Seq::empty()
    } else {
        let w = ws_words(s.drop_last());
        let c = s.last();
        if is_ws(c) {
            w
        } else if s.len() >= 2 && !is_ws(s[s.len() - 2]) && w.len() > 0 {
            w.update(w.len() - 1, w.last().push(c))
        } else {
            w.push(seq![c])
        }
    }
}

/// A status line reports success: its second word starts with `2` or `3`.
pub open spec fn spec_status_healthy(line: Seq<char>) -> bool {
    let w = ws_words(line);
    w.len() >= 2 && w[1].len() > 0 && (w[1][0] == '2' || w[1][0] == '3')
}

/// The words of `s`.
fn words_of(s: &Vec<char>) -> (r: Vec<Vec<char>>)
    ensures
        cviews(r@) == ws_words(s@),
{
    let mut r: Vec<Vec<char>> = Vec::new();
    let mut i: usize = 0;
    while i < s.len()
        invariant
            i <= s.len(),
            cviews(r@) == ws_words(s@.take(i as int)),
        decreases s.len() - i,
    {
        let c = s[i];
        let ghost t = s@.take(i + 1);
        assert(t.drop_last() =~= s@.take(i as int));
        assert(t.last() == c);
        if is_whitespace(c) {
        } else if i >= 1 && !is_whitespace(s[i - 1]) && r.len() > 0 {
            assert(t[t.len() - 2] == s@[i - 1]);
            let ghost before = r@;
            let mut last = r.pop().unwrap();
            last.push(c);
            r.push(last);
            assert(cviews(r@) =~= cviews(before).update(before.len() - 1, cviews(before).last().push(c)));
        } else {
            proof {
                if i >= 1 {
                    assert(t[t.len() - 2] == s@[i - 1]);
                }
            }
            let mut word: Vec<char> = Vec::new();
            word.push(c);
            let ghost before = r@;
            r.push(word);
            assert(word@ =~= seq![c]);
            assert(cviews(r@) =~= cviews(before).push(seq![c]));
        }
        i += 1;
    }
    assert(s@.take(i as int) =~= s@);
    r
}

/// Whether an HTTP status line reports a 2xx or 3xx status.
pub fn status_line_healthy(line: &str) -> (r: bool)
    ensures
        r == spec_status_healthy(line@),
{
    let w = words_of(&chars_of(line));
    proof {
        if w@.len() >= 2 {
            assert(cviews(w@)[1] == w@[1]@);
        }
    }
    w.len() >= 2 && w[1].len() > 0 && (w[1][0] == '2' || w[1][0] == '3')
}

} // verus!
