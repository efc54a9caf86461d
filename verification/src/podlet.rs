//! Decisions of the workload supervisor: parsing its arguments, assigning host ports,
//! the lifecycle state it reports, when to restart, and what to launch.

use vstd::prelude::*;
use crate::text::{
    chars_of, decimal, parse_unsigned, spec_decimal, spec_parse_bounded,
    spec_split_once, spec_trim, split_once, starts_with, str_eq, string_of, strip_all_leading,
    strip_leading, trim, trim_chars, slice, slice_from, occurs_at_exec,
};
use crate::config::ends_with_spec;
use crate::text::sviews;
use crate::health::{CheckerView, HealthChecker};

verus! {

/// A port to publish: the workload's port and, when given, the host port to map it to.
#[derive(Clone, Copy, Debug, PartialEq, Eq, Structural)]
pub struct PortMapping {
    pub container_port: u16,
    pub host_port: Option<u16>,
}

/// The `u16` that `s` denotes, as `u16::from_str` reads it.
pub open spec fn parsed_u16(s: Seq<char>) -> Option<u16> {
    match spec_parse_bounded(s, 65535) {
        Some(n) => Some(n as u16),
        None => None,
    }
}

/// Reads a `u16` from characters.
fn u16_of(v: &Vec<char>) -> (r: Option<u16>)
    ensures
        r == parsed_u16(v@),
{
    match parse_unsigned(v, 65535) {
        Some(n) => Some(n as u16),
        None => None,
    }
}

/// `prefix` followed by the characters `text`.
fn message(prefix: &str, text: &Vec<char>) -> (r: String)
    ensures
        r@ == prefix@ + text@,
{
    String::from_str(prefix).concat(string_of(text).as_str())
}

/// The two sides of `s` around its first `:` (the second empty when there is none).
pub open spec fn colon_fields(s: Seq<char>) -> (Seq<char>, Seq<char>) {
    match spec_split_once(s, ':') {
        Some((a, b)) => (a, b),
        None => (s, Seq::empty()),
    }
}

/// A `--ports` value: `CONTAINER` or `CONTAINER:HOST`; an empty host part means none.
pub open spec fn spec_parse_port(s: Seq<char>) -> Result<PortMapping, Seq<char>> {
    let (c, h) = colon_fields(s);
    match parsed_u16(c) {
        None => Err("invalid container port: "@ + c),
        Some(cp) => if h.len() == 0 {
            Ok(PortMapping { container_port: cp, host_port: None })
        } else {
            match parsed_u16(h) {
                None => Err("invalid host port: "@ + h),
                Some(hp) => Ok(PortMapping { container_port: cp, host_port: Some(hp) }),
            }
        },
    }
}

/// Parses a `--ports` value.
pub fn parse_port(s: &str) -> (r: Result<PortMapping, String>)
    ensures
        match r {
            Ok(m) => spec_parse_port(s@) == Ok::<PortMapping, Seq<char>>(m),
            Err(e) => spec_parse_port(s@) == Err::<PortMapping, Seq<char>>(e@),
        },
{
    let cs = chars_of(s);
    let (c, h) = match split_once(&cs, ':') {
        Some(p) => p,
        None => (cs, Vec::new()),
    };
    proof {
        assert(colon_fields(s@) == (c@, h@));
    }
    let cp = match u16_of(&c) {
        Some(v) => v,
        None => {
            return Err(message("invalid container port: ", &c));
        },
    };
    if h.len() == 0 {
        return Ok(PortMapping { container_port: cp, host_port: None });
    }
    match u16_of(&h) {
        Some(v) => Ok(PortMapping { container_port: cp, host_port: Some(v) }),
        None => Err(message("invalid host port: ", &h)),
    }
}

/// A `--tcp-check` value: a port, with surrounding white space and leading colons ignored.
pub open spec fn spec_parse_check_port(s: Seq<char>) -> Result<u16, Seq<char>> {
    let t = strip_all_leading(spec_trim(s), ':');
    match parsed_u16(t) {
        Some(p) => Ok(p),
        None => Err("invalid port: "@ + t),
    }
}

/// Parses a `--tcp-check` value.
pub fn parse_check_port(s: &str) -> (r: Result<u16, String>)
    ensures
        match r {
            Ok(p) => spec_parse_check_port(s@) == Ok::<u16, Seq<char>>(p),
            Err(e) => spec_parse_check_port(s@) == Err::<u16, Seq<char>>(e@),
        },
{
    let t = strip_leading(&trim_chars(&chars_of(s)), ':');
    match u16_of(&t) {
        Some(p) => Ok(p),
        None => Err(message("invalid port: ", &t)),
    }
}

/// The two sides of `s` around its first `/` (the second empty when there is none).
pub open spec fn slash_fields(s: Seq<char>) -> (Seq<char>, Seq<char>) {
    match spec_split_once(s, '/') {
        Some((a, b)) => (a, b),
        None => (s, Seq::empty()),
    }
}

/// A `--http-check` value: `http://HOST[:PORT][/PATH]` (port 80 by default), or
/// `:PORT[/PATH]` for the local host; gives host, port and request path.
pub open spec fn spec_parse_http_check(s: Seq<char>) -> Result<(Seq<char>, u16, Seq<char>), Seq<char>> {
    let t = spec_trim(s);
    if "http://"@.len() <= t.len() && t.take("http://"@.len() as int) == "http://"@ {
        let (host_port, path) = slash_fields(t.skip("http://"@.len() as int));
        let (host, port_text) = match spec_split_once(host_port, ':') {
            Some((a, b)) => (a, b),
            None => (host_port, "80"@),
        };
        match parsed_u16(port_text) {
            Some(p) => Ok((host, p, "/"@ + path)),
            None => Err("invalid port: "@ + port_text),
        }
    } else if t.len() > 0 && t[0] == ':' {
        let (port_text, path) = slash_fields(t.skip(1));
        match parsed_u16(port_text) {
            Some(p) => Ok(("127.0.0.1"@, p, "/"@ + path)),
            None => Err("invalid port: "@ + t),
        }
    } else {
        Err("http-check must start with ':' or 'http://', got '"@ + t + "'"@)
    }
}

/// Parses a `--http-check` value into host, port and path.
pub fn parse_http_check(s: &str) -> (r: Result<(String, u16, String), String>)
    ensures
        match r {
            Ok(v) => spec_parse_http_check(s@) == Ok::<(Seq<char>, u16, Seq<char>), Seq<char>>(
                (v.0@, v.1, v.2@),
            ),
            Err(e) => spec_parse_http_check(s@) == Err::<(Seq<char>, u16, Seq<char>), Seq<char>>(
                e@,
            ),
        },
{
    let t = trim(s);
    let tc = chars_of(t.as_str());
    if starts_with(t.as_str(), "http://") {
        let prefix = chars_of("http://");
        let rest = slice_from(&tc, prefix.len());
        let (host_port, path) = match split_once(&rest, '/') {
            Some(p) => p,
            None => (rest, Vec::new()),
        };
        let (host, port_text) = match split_once(&host_port, ':') {
            Some(p) => p,
            None => (host_port, chars_of("80")),
        };
        match u16_of(&port_text) {
            Some(p) => Ok((string_of(&host), p, message("/", &path))),
            None => Err(message("invalid port: ", &port_text)),
        }
    } else if tc.len() > 0 && tc[0] == ':' {
        let rest = slice_from(&tc, 1);
        let (port_text, path) = match split_once(&rest, '/') {
            Some(p) => p,
            None => (rest, Vec::new()),
        };
        match u16_of(&port_text) {
            Some(p) => Ok((String::from_str("127.0.0.1"), p, message("/", &path))),
            None => Err(message("invalid port: ", &tc)),
        }
    } else {
        Err(message("http-check must start with ':' or 'http://', got '", &tc).concat("'"))
    }
}

/// `s` holds no `c`.
pub open spec fn lacks(s: Seq<char>, c: char) -> bool {
    forall|i: int| 0 <= i < s.len() ==> s[i] != c
}

/// Text whose last character is not white space (or that is empty).
pub open spec fn no_trailing_space(s: Seq<char>) -> bool {
    s.len() == 0 || !crate::text::is_ws(s.last())
}

proof fn lemma_80()
    ensures
        parsed_u16("80"@) == Some(80u16),
{
    reveal_strlit("80");
    let d = "80"@;
    assert(crate::text::unsigned_digits(d) == d);
    assert(d.drop_last() =~= seq!['8']);
    assert(seq!['8'].drop_last() =~= Seq::<char>::empty());
    assert(('8' as u32) == 56);
    assert(('0' as u32) == 48);
    assert(seq!['8'].last() == '8');
    assert(crate::text::digits_value(Seq::<char>::empty()) == 0);
    assert(crate::text::digits_value(seq!['8']) == crate::text::digits_value(Seq::<char>::empty()) * 10 + (('8' as u32
        - 48) as nat));
    assert(crate::text::digits_value(seq!['8']) == 8);
    assert(crate::text::digits_value(d) == 80);
}

/// An `http://HOST/PATH` check, with no port written, checks port 80 of `HOST` with
/// request path `/PATH`.
pub proof fn law_http_check_without_port(host: Seq<char>, path: Seq<char>)
    requires
        lacks(host, ':'),
        lacks(host, '/'),
        no_trailing_space(path),
    ensures
        spec_parse_http_check("http://"@ + host + "/"@ + path) == Ok::<(Seq<char>, u16, Seq<char>), Seq<char>>(
            (host, 80u16, "/"@ + path),
        ),
{
    reveal_strlit("http://");
    reveal_strlit("/");
    let s = "http://"@ + host + "/"@ + path;
    let rest = host + seq!['/'] + path;
    assert(s =~= "http://"@ + rest);
    lemma_trimmed_http(rest);
    assert(s.skip(7) =~= rest);
    crate::text::lemma_split_once_at(host, '/', path);
    assert(slash_fields(rest) == (host, path));
    crate::text::lemma_split_once_none(host, ':');
    lemma_80();
}

/// An `http://HOST` check, with neither port nor path written, requests `/` from port 80
/// of `HOST`.
pub proof fn law_http_check_bare_host(host: Seq<char>)
    requires
        lacks(host, ':'),
        lacks(host, '/'),
        host.len() > 0,
        no_trailing_space(host),
    ensures
        spec_parse_http_check("http://"@ + host) == Ok::<(Seq<char>, u16, Seq<char>), Seq<char>>(
            (host, 80u16, "/"@),
        ),
{
    reveal_strlit("/");
    lemma_trimmed_http(host);
    assert(("http://"@ + host).skip(7) =~= host);
    crate::text::lemma_split_once_none(host, '/');
    crate::text::lemma_split_once_none(host, ':');
    assert("/"@ + Seq::<char>::empty() =~= "/"@);
    lemma_80();
}

/// A check that, once trimmed, starts neither with `http://` nor with `:` is refused,
/// quoting the trimmed text.
pub proof fn law_http_check_needs_form(s: Seq<char>)
    requires
        !(spec_trim(s).len() >= 7 && spec_trim(s).take(7) == "http://"@),
        !(spec_trim(s).len() > 0 && spec_trim(s)[0] == ':'),
    ensures
        spec_parse_http_check(s) == Err::<(Seq<char>, u16, Seq<char>), Seq<char>>(
            "http-check must start with ':' or 'http://', got '"@ + spec_trim(s) + "'"@,
        ),
{
    reveal_strlit("http://");
}

/// `http://` followed by text that ends with no white space is its own trim and starts
/// with `http://`.
proof fn lemma_trimmed_http(rest: Seq<char>)
    requires
        rest.len() > 0,
        !crate::text::is_ws(rest.last()),
    ensures
        spec_trim("http://"@ + rest) == "http://"@ + rest,
        ("http://"@ + rest).take(7) == "http://"@,
        "http://"@.len() == 7,
{
    reveal_strlit("http://");
    let s = "http://"@ + rest;
    assert(s[0] == 'h');
    assert(s.last() == rest.last());
    crate::text::lemma_trim_unchanged(s);
    assert(s.take(7) =~= "http://"@);
}

/// An `http://HOST:PORT/PATH` check checks port `PORT` of `HOST` with request path
/// `/PATH`: host and path are read as without a port, and a port that is not a number
/// is refused.
pub proof fn law_http_check_with_port(host: Seq<char>, port: Seq<char>, path: Seq<char>)
    requires
        lacks(host, ':'),
        lacks(host, '/'),
        lacks(port, '/'),
        no_trailing_space(path),
    ensures
        spec_parse_http_check("http://"@ + host + ":"@ + port + "/"@ + path) == match parsed_u16(port) {
            Some(p) => Ok::<(Seq<char>, u16, Seq<char>), Seq<char>>((host, p, "/"@ + path)),
            None => Err::<(Seq<char>, u16, Seq<char>), Seq<char>>("invalid port: "@ + port),
        },
{
    reveal_strlit("/");
    reveal_strlit(":");
    let s = "http://"@ + host + ":"@ + port + "/"@ + path;
    let hp = host + seq![':'] + port;
    let rest = hp + seq!['/'] + path;
    assert(s =~= "http://"@ + rest);
    lemma_trimmed_http(rest);
    assert(s.skip(7) =~= rest);
    assert forall|i: int| 0 <= i < hp.len() implies hp[i] != '/' by {
        if i < host.len() {
            assert(hp[i] == host[i]);
        } else if i > host.len() {
            assert(hp[i] == port[i - host.len() - 1]);
        }
    }
    crate::text::lemma_split_once_at(hp, '/', path);
    assert(slash_fields(rest) == (hp, path));
    crate::text::lemma_split_once_at(host, ':', port);
}

/// A `:PORT/PATH` check checks port `PORT` of the local host with request path `/PATH`.
pub proof fn law_http_check_local(port: Seq<char>, path: Seq<char>)
    requires
        lacks(port, '/'),
        no_trailing_space(path),
    ensures
        spec_parse_http_check(":"@ + port + "/"@ + path) == match parsed_u16(port) {
            Some(p) => Ok::<(Seq<char>, u16, Seq<char>), Seq<char>>(("127.0.0.1"@, p, "/"@ + path)),
            None => Err::<(Seq<char>, u16, Seq<char>), Seq<char>>("invalid port: "@ + (":"@ + port + "/"@ + path)),
        },
{
    reveal_strlit("http://");
    reveal_strlit("/");
    reveal_strlit(":");
    let s = ":"@ + port + "/"@ + path;
    crate::text::lemma_trim_unchanged(s);
    if 7 <= s.len() {
        assert(s.take(7)[0] != "http://"@[0]);
    }
    assert(s.skip(1) =~= port + seq!['/'] + path);
    crate::text::lemma_split_once_at(port, '/', path);
}

} // verus!

verus! {

/// The number written before unit `unit` at the end of `t`, without surrounding white space.
pub open spec fn unit_number(t: Seq<char>, unit: Seq<char>) -> Seq<char> {
    spec_trim(t.take(t.len() - unit.len()))
}

/// When `t` ends with `unit`, the trimmed text before it.
fn strip_unit(t: &Vec<char>, unit: &str) -> (r: Option<Vec<char>>)
    ensures
        r is Some <==> ends_with_spec(t@, unit@),
        r matches Some(n) ==> n@ == unit_number(t@, unit@),
{
    let u = chars_of(unit);
    if u.len() > t.len() {
        return None;
    }
    let k = t.len() - u.len();
    proof {
        assert(t@.skip(k as int) =~= t@.subrange(k as int, k + u@.len()));
    }
    if occurs_at_exec(t, k, &u) {
        let head = slice(t, 0, k);
        assert(head@ =~= t@.take(k as int));
        Some(trim_chars(&head))
    } else {
        None
    }
}

/// The unit of a duration.
#[derive(Clone, Copy, Debug, PartialEq, Eq, Structural)]
pub enum DurationUnit {
    Millis,
    Seconds,
    Minutes,
    Hours,
}

/// A duration argument split into its number text and unit (`ms`, `s`, `m` or `h`), after
/// removing surrounding white space.
pub open spec fn spec_split_duration(s: Seq<char>) -> Result<(Seq<char>, DurationUnit), Seq<char>> {
    let t = spec_trim(s);
    if t.len() == 0 {
        Err("empty duration"@)
    } else if ends_with_spec(t, "ms"@) {
        Ok((unit_number(t, "ms"@), DurationUnit::Millis))
    } else if ends_with_spec(t, "s"@) {
        Ok((unit_number(t, "s"@), DurationUnit::Seconds))
    } else if ends_with_spec(t, "m"@) {
        Ok((unit_number(t, "m"@), DurationUnit::Minutes))
    } else if ends_with_spec(t, "h"@) {
        Ok((unit_number(t, "h"@), DurationUnit::Hours))
    } else {
        Err("unknown duration unit in '"@ + t + "', expected ms/s/m/h"@)
    }
}

/// Splits a duration argument (`500ms`, `30s`, `1.5m`, `2h`) into number text and unit;
/// reading the number is left to the caller.
pub fn split_duration(s: &str) -> (r: Result<(String, DurationUnit), String>)
    ensures
        match r {
            Ok(v) => spec_split_duration(s@) == Ok::<(Seq<char>, DurationUnit), Seq<char>>(
                (v.0@, v.1),
            ),
            Err(e) => spec_split_duration(s@) == Err::<(Seq<char>, DurationUnit), Seq<char>>(
                e@,
            ),
        },
{
    let t = trim_chars(&chars_of(s));
    if t.len() == 0 {
        return Err(String::from_str("empty duration"));
    }
    if let Some(n) = strip_unit(&t, "ms") {
        return Ok((string_of(&n), DurationUnit::Millis));
    }
    if let Some(n) = strip_unit(&t, "s") {
        return Ok((string_of(&n), DurationUnit::Seconds));
    }
    if let Some(n) = strip_unit(&t, "m") {
        return Ok((string_of(&n), DurationUnit::Minutes));
    }
    if let Some(n) = strip_unit(&t, "h") {
        return Ok((string_of(&n), DurationUnit::Hours));
    }
    Err(message("unknown duration unit in '", &t).concat("', expected ms/s/m/h"))
}

/// The number text and multiplier of a memory size: binary suffixes `Gi`, `Mi`, `Ki`,
/// decimal suffixes `G`, `M`, `K`, or none (bytes).
pub open spec fn mem_parts(t: Seq<char>) -> (Seq<char>, nat) {
    if ends_with_spec(t, "Gi"@) {
        (unit_number(t, "Gi"@), 1073741824)
    } else if ends_with_spec(t, "Mi"@) {
        (unit_number(t, "Mi"@), 1048576)
    } else if ends_with_spec(t, "Ki"@) {
        (unit_number(t, "Ki"@), 1024)
    } else if ends_with_spec(t, "G"@) {
        (unit_number(t, "G"@), 1000000000)
    } else if ends_with_spec(t, "M"@) {
        (unit_number(t, "M"@), 1000000)
    } else if ends_with_spec(t, "K"@) {
        (unit_number(t, "K"@), 1000)
    } else {
        (t, 1)
    }
}

/// The number of bytes a memory size denotes (`64Mi`, `1G`, `4096`).
pub open spec fn spec_parse_mem(s: Seq<char>) -> Result<nat, Seq<char>> {
    let t = spec_trim(s);
    if t.len() == 0 {
        Err("empty memory value"@)
    } else {
        let (num, mult) = mem_parts(t);
        match spec_parse_bounded(num, u64::MAX as nat) {
            Some(n) => Ok(n * mult),
            None => Err("invalid memory number: '"@ + num + "'"@),
        }
    }
}

/// The size denoted by `s`, if any, fits in 64 bits.
pub open spec fn mem_value_fits(s: Seq<char>) -> bool {
    match spec_parse_mem(s) {
        Ok(v) => v <= u64::MAX,
        Err(_) => true,
    }
}

/// The number text and multiplier of a trimmed, non-empty memory size.
fn mem_parts_exec(t: &Vec<char>) -> (r: (Vec<char>, u64))
    ensures
        (r.0@, r.1 as nat) == mem_parts(t@),
{
    if let Some(n) = strip_unit(t, "Gi") {
        return (n, 1073741824);
    }
    if let Some(n) = strip_unit(t, "Mi") {
        return (n, 1048576);
    }
    if let Some(n) = strip_unit(t, "Ki") {
        return (n, 1024);
    }
    if let Some(n) = strip_unit(t, "G") {
        return (n, 1000000000);
    }
    if let Some(n) = strip_unit(t, "M") {
        return (n, 1000000);
    }
    if let Some(n) = strip_unit(t, "K") {
        return (n, 1000);
    }
    let c = slice_from(t, 0);
    assert(c@ =~= t@);
    (c, 1)
}

/// Whether the size written in `s` fits in 64 bits (a size that does not parse counts as
/// fitting: parsing it reports the error).
pub fn mem_bytes_fit(s: &str) -> (r: bool)
    ensures
        r == mem_value_fits(s@),
{
    let t = trim_chars(&chars_of(s));
    if t.len() == 0 {
        return true;
    }
    let (num, mult) = mem_parts_exec(&t);
    match parse_unsigned(&num, u64::MAX) {
        Some(n) => {
            let ok = n <= u64::MAX / mult;
            assert(mult >= 1);
            assert(ok == (n * mult <= u64::MAX)) by (nonlinear_arith)
                requires
                    mult >= 1,
                    ok == (n <= u64::MAX / mult),
            ;
            ok
        },
        None => true,
    }
}

/// Parses a memory size into bytes.
pub fn parse_mem_bytes(s: &str) -> (r: Result<u64, String>)
    requires
        mem_value_fits(s@),
    ensures
        match r {
            Ok(v) => spec_parse_mem(s@) == Ok::<nat, Seq<char>>(v as nat),
            Err(e) => spec_parse_mem(s@) == Err::<nat, Seq<char>>(e@),
        },
{
    let t = trim_chars(&chars_of(s));
    if t.len() == 0 {
        return Err(String::from_str("empty memory value"));
    }
    let (num, mult) = mem_parts_exec(&t);
    match parse_unsigned(&num, u64::MAX) {
        Some(n) => Ok(n * mult),
        None => Err(message("invalid memory number: '", &num).concat("'")),
    }
}

} // verus!

verus! {

/// How many mappings lack a host port.
pub open spec fn missing_count(ms: Seq<PortMapping>) -> nat
    decreases ms.len(),
{
    if ms.len() == 0 {
        0
    } else {
        missing_count(ms.drop_last()) + if ms.last().host_port is None {
            1nat
        } else {
            0nat
        }
    }
}

/// Each mapping with its host port: the one it names, or else the next unused port of
/// `fresh` (taken in order).
pub open spec fn spec_allocate_ports(ms: Seq<PortMapping>, fresh: Seq<u16>) -> Seq<(PortMapping, u16)> {
    Seq::new(
        ms.len(),
        |i: int|
            (
                ms[i],
                match ms[i].host_port {
                    Some(p) => p,
                    None => fresh[missing_count(ms.take(i)) as int],
                },
            ),
    )
}

/// The number of host ports to allocate for `mappings`.
pub fn missing_host_ports(mappings: &Vec<PortMapping>) -> (r: usize)
    ensures
        r == missing_count(mappings@),
{
    let mut n: usize = 0;
    let mut i: usize = 0;
    while i < mappings.len()
        invariant
            i <= mappings.len(),
            n == missing_count(mappings@.take(i as int)),
            n <= i,
        decreases mappings.len() - i,
    {
        assert(mappings@.take(i + 1).drop_last() =~= mappings@.take(i as int));
        if mappings[i].host_port.is_none() {
            n += 1;
        }
        i += 1;
    }
    assert(mappings@.take(i as int) =~= mappings@);
    n
}

/// Pairs every mapping with its host port, using the ports of `fresh` in order for
/// mappings that name none.
pub fn allocate_ports(mappings: &Vec<PortMapping>, fresh: &Vec<u16>) -> (r: Vec<(PortMapping, u16)>)
    requires
        fresh@.len() >= missing_count(mappings@),
    ensures
        r@ == spec_allocate_ports(mappings@, fresh@),
{
    let mut r: Vec<(PortMapping, u16)> = Vec::new();
    let mut used: usize = 0;
    let mut i: usize = 0;
    while i < mappings.len()
        invariant
            i <= mappings.len(),
            fresh@.len() >= missing_count(mappings@),
            used == missing_count(mappings@.take(i as int)),
            used <= i,
            r@ =~= spec_allocate_ports(mappings@, fresh@).take(i as int),
        decreases mappings.len() - i,
    {
        proof {
            assert(mappings@.take(i + 1).drop_last() =~= mappings@.take(i as int));
            lemma_missing_count_prefix(mappings@, i + 1);
        }
        let m = mappings[i];
        let host = match m.host_port {
            Some(p) => p,
            None => {
                let p = fresh[used];
                used += 1;
                p
            },
        };
        r.push((m, host));
        i += 1;
    }
    r
}

/// A prefix lacks no more host ports than the whole.
proof fn lemma_missing_count_prefix(ms: Seq<PortMapping>, i: int)
    requires
        0 <= i <= ms.len(),
    ensures
        missing_count(ms.take(i)) <= missing_count(ms),
        i < ms.len() && ms[i].host_port is None ==> missing_count(ms.take(i)) < missing_count(ms),
    decreases ms.len() - i,
{
    if i < ms.len() {
        lemma_missing_count_prefix(ms, i + 1);
        assert(ms.take(i + 1).drop_last() =~= ms.take(i));
    } else {
        assert(ms.take(i) =~= ms);
    }
}

/// `t` with `k` set to `v`: the entry for `k` is overwritten, or added at the end.
pub open spec fn upsert(t: Seq<(u16, u16)>, k: u16, v: u16) -> Seq<(u16, u16)> {
    if exists|i: int| 0 <= i < t.len() && t[i].0 == k {
        t.update(choose|i: int| 0 <= i < t.len() && t[i].0 == k, (k, v))
    } else {
        t.push((k, v))
    }
}

/// Container port to host port, as collecting the pairs into a map gives it: a later pair
/// for the same container port overwrites an earlier one.
pub open spec fn port_table(ports: Seq<(PortMapping, u16)>) -> Seq<(u16, u16)>
    decreases ports.len(),
{
    if ports.len() == 0 {
        Seq::empty()
    } else {
        upsert(port_table(ports.drop_last()), ports.last().0.container_port, ports.last().1)
    }
}

/// No two entries of the table share a container port.
pub open spec fn table_distinct(t: Seq<(u16, u16)>) -> bool {
    forall|i: int, j: int| 0 <= i < t.len() && 0 <= j < t.len() && i != j ==> t[i].0 != t[j].0
}

/// The `ports` member of the reported state: container port to host port, both in decimal.
pub fn port_map_to_json(ports: &Vec<(PortMapping, u16)>) -> (r: Vec<(String, String)>)
    ensures
        r@.len() == port_table(ports@).len(),
        forall|i: int|
            0 <= i < r@.len() ==> (#[trigger] r@[i]).0@ == spec_decimal(port_table(ports@)[i].0 as nat)
                && r@[i].1@ == spec_decimal(port_table(ports@)[i].1 as nat),
{
    let mut t: Vec<(u16, u16)> = Vec::new();
    let mut i: usize = 0;
    while i < ports.len()
        invariant
            i <= ports.len(),
            t@ == port_table(ports@.take(i as int)),
            table_distinct(t@),
        decreases ports.len() - i,
    {
        assert(ports@.take(i + 1).drop_last() =~= ports@.take(i as int));
        let k = ports[i].0.container_port;
        let v = ports[i].1;
        let mut j: usize = 0;
        let mut found: Option<usize> = None;
        while j < t.len() && found.is_none()
            invariant
                j <= t.len(),
                found matches Some(x) ==> x < t@.len() && t@[x as int].0 == k,
                found is None ==> forall|x: int| 0 <= x < j ==> t@[x].0 != k,
            decreases t.len() - j + if found is None {
                1int
            } else {
                0int
            },
        {
            if t[j].0 == k {
                found = Some(j);
            } else {
                j += 1;
            }
        }
        match found {
            Some(x) => {
                proof {
                    let c = choose|c: int| 0 <= c < t@.len() && t@[c].0 == k;
                    assert(t@[x as int].0 == k);
                    if c != x {
                        assert(t@[c].0 != t@[x as int].0);
                    }
                }
                t.set(x, (k, v));
            },
            None => {
                t.push((k, v));
            },
        }
        i += 1;
    }
    assert(ports@.take(i as int) =~= ports@);
    let mut r: Vec<(String, String)> = Vec::new();
    let mut k: usize = 0;
    while k < t.len()
        invariant
            k <= t.len(),
            t@ == port_table(ports@),
            r@.len() == k,
            forall|x: int|
                0 <= x < k ==> (#[trigger] r@[x]).0@ == spec_decimal(t@[x].0 as nat) && r@[x].1@
                    == spec_decimal(t@[x].1 as nat),
        decreases t.len() - k,
    {
        let a = decimal(t[k].0 as u64);
        let b = decimal(t[k].1 as u64);
        r.push((a, b));
        k += 1;
    }
    r
}

} // verus!

verus! {

/// When the supervisor starts the workload again after it exits.
#[derive(Clone, Copy, Debug, PartialEq, Eq, Structural)]
pub enum RestartPolicy {
    Never,
    Always,
    OnFailure,
}

/// The policy a `--restart` value selects (`never` when absent).
pub open spec fn spec_restart_policy(arg: Option<Seq<char>>) -> Result<RestartPolicy, Seq<char>> {
    match arg {
        None => Ok(RestartPolicy::Never),
        Some(a) => if a == "never"@ {
            Ok(RestartPolicy::Never)
        } else if a == "always"@ {
            Ok(RestartPolicy::Always)
        } else if a == "on-failure"@ {
            Ok(RestartPolicy::OnFailure)
        } else {
            Err("invalid --restart value '"@ + a + "'"@)
        },
    }
}

/// The text of an optional argument.
pub open spec fn opt_text(arg: Option<&str>) -> Option<Seq<char>> {
    match arg {
        Some(a) => Some(a@),
        None => None,
    }
}

/// Reads the `--restart` option.
pub fn parse_restart_policy(arg: Option<&str>) -> (r: Result<RestartPolicy, String>)
    ensures
        match r {
            Ok(p) => spec_restart_policy(opt_text(arg)) == Ok::<RestartPolicy, Seq<char>>(p),
            Err(e) => spec_restart_policy(opt_text(arg)) == Err::<RestartPolicy, Seq<char>>(
                e@,
            ),
        },
{
    match arg {
        None => Ok(RestartPolicy::Never),
        Some(a) => {
            if str_eq(a, "never") {
                Ok(RestartPolicy::Never)
            } else if str_eq(a, "always") {
                Ok(RestartPolicy::Always)
            } else if str_eq(a, "on-failure") {
                Ok(RestartPolicy::OnFailure)
            } else {
                Err(String::from_str("invalid --restart value '").concat(a).concat("'"))
            }
        },
    }
}

/// Whether a workload that exited with `exit_code` is started again under `policy`.
pub open spec fn spec_should_restart(policy: RestartPolicy, exit_code: i32) -> bool {
    match policy {
        RestartPolicy::Always => true,
        RestartPolicy::OnFailure => exit_code != 0,
        RestartPolicy::Never => false,
    }
}

impl RestartPolicy {
    /// Whether a workload that exited with `exit_code` is started again.
    pub fn should_restart(&self, exit_code: i32) -> (r: bool)
        ensures
            r == spec_should_restart(*self, exit_code),
            *self == RestartPolicy::Always ==> r,
            *self == RestartPolicy::Never ==> !r,
            *self == RestartPolicy::OnFailure ==> (r <==> exit_code != 0),
    {
        match self {
            RestartPolicy::Always => true,
            RestartPolicy::OnFailure => exit_code != 0,
            RestartPolicy::Never => false,
        }
    }
}

/// `always` restarts after every exit, `never` after none, and `on-failure` after exactly
/// the exits with a non-zero code.
pub proof fn law_restart_policies(exit_code: i32)
    ensures
        spec_should_restart(RestartPolicy::Always, exit_code),
        !spec_should_restart(RestartPolicy::Never, exit_code),
        spec_should_restart(RestartPolicy::OnFailure, exit_code) <==> exit_code != 0,
{
}

/// What the supervisor does once the workload has exited.
#[derive(Clone, Copy, Debug, PartialEq, Eq, Structural)]
pub enum RestartDecision {
    /// The policy does not restart: stop with the workload's exit code.
    Stop,
    /// The restart limit is used up: stop.
    GiveUp,
    /// Start the workload again; this is restart number `attempt`.
    Restart(u32),
}

/// Decides what follows an exit with `exit_code` after `restarts` restarts so far, with at
/// most `max_restarts` allowed.
pub fn next_restart(policy: RestartPolicy, exit_code: i32, restarts: u32, max_restarts: u32) -> (r:
    RestartDecision)
    requires
        restarts < u32::MAX,
    ensures
        !spec_should_restart(policy, exit_code) ==> r == RestartDecision::Stop,
        spec_should_restart(policy, exit_code) && restarts + 1 > max_restarts ==> r
            == RestartDecision::GiveUp,
        spec_should_restart(policy, exit_code) && restarts + 1 <= max_restarts ==> r
            == RestartDecision::Restart((restarts + 1) as u32),
        r matches RestartDecision::Restart(n) ==> 1 <= n <= max_restarts,
        policy == RestartPolicy::OnFailure && exit_code == 0 ==> r == RestartDecision::Stop,
        policy == RestartPolicy::OnFailure && exit_code != 0 && restarts < max_restarts ==> r
            == RestartDecision::Restart((restarts + 1) as u32),
        policy != RestartPolicy::Never && exit_code != 0 && restarts >= max_restarts ==> r
            == RestartDecision::GiveUp,
{
    if !policy.should_restart(exit_code) {
        return RestartDecision::Stop;
    }
    let attempt = restarts + 1;
    if attempt > max_restarts {
        RestartDecision::GiveUp
    } else {
        RestartDecision::Restart(attempt)
    }
}

/// Lifecycle status reported for the workload.
#[derive(Clone, Copy, Debug, PartialEq, Eq, Structural)]
pub enum Status {
    Starting,
    Running,
    Draining,
    Exited,
    Stopped,
}

/// Health reported for the workload.
#[derive(Clone, Copy, Debug, PartialEq, Eq, Structural)]
pub enum Health {
    Unknown,
    Healthy,
    Unhealthy,
}

/// The word reported for a status.
pub open spec fn status_word(s: Status) -> Seq<char> {
    match s {
        Status::Starting => "starting"@,
        Status::Running => "running"@,
        Status::Draining => "draining"@,
        Status::Exited => "exited"@,
        Status::Stopped => "stopped"@,
    }
}

/// The word reported for a health value.
pub open spec fn health_word(h: Health) -> Seq<char> {
    match h {
        Health::Unknown => "unknown"@,
        Health::Healthy => "healthy"@,
        Health::Unhealthy => "unhealthy"@,
    }
}

impl Status {
    /// The word reported for this status.
    pub fn word(&self) -> (r: String)
        ensures
            r@ == status_word(*self),
    {
        match self {
            Status::Starting => String::from_str("starting"),
            Status::Running => String::from_str("running"),
            Status::Draining => String::from_str("draining"),
            Status::Exited => String::from_str("exited"),
            Status::Stopped => String::from_str("stopped"),
        }
    }
}

impl Health {
    /// The word reported for this health value.
    pub fn word(&self) -> (r: String)
        ensures
            r@ == health_word(*self),
    {
        match self {
            Health::Unknown => String::from_str("unknown"),
            Health::Healthy => String::from_str("healthy"),
            Health::Unhealthy => String::from_str("unhealthy"),
        }
    }
}

/// The state the supervisor reports, one JSON line per change.
#[derive(Debug)]
pub struct PodState {
    pub status: Status,
    pub pid: Option<u32>,
    pub health: Health,
    pub ports: Vec<(String, String)>,
}

impl PodState {
    /// The state before the workload is launched.
    pub fn starting(ports: Vec<(String, String)>) -> (r: PodState)
        ensures
            r.status == Status::Starting,
            r.pid is None,
            r.health == Health::Unknown,
            r.ports@ == ports@,
    {
        PodState { status: Status::Starting, pid: None, health: Health::Unknown, ports }
    }

    /// The workload runs as process `pid`.
    pub fn run(&mut self, pid: u32)
        ensures
            final(self).status == Status::Running,
            final(self).pid == Some(pid),
            final(self).health == old(self).health,
            final(self).ports@ == old(self).ports@,
    {
        self.status = Status::Running;
        self.pid = Some(pid);
    }

    /// Records a health check result; returns whether the reported health changed (the
    /// state is reported again only then).
    pub fn observe_health(&mut self, healthy: bool) -> (changed: bool)
        ensures
            final(self).health == (if healthy {
                Health::Healthy
            } else {
                Health::Unhealthy
            }),
            changed == (final(self).health != old(self).health),
            final(self).status == old(self).status,
            final(self).pid == old(self).pid,
            final(self).ports@ == old(self).ports@,
    {
        let h = if healthy {
            Health::Healthy
        } else {
            Health::Unhealthy
        };
        let changed = h != self.health;
        self.health = h;
        changed
    }

    /// A stop signal arrived: the workload is being drained.
    pub fn drain(&mut self)
        ensures
            final(self).status == Status::Draining,
            final(self).pid == old(self).pid,
            final(self).health == old(self).health,
            final(self).ports@ == old(self).ports@,
    {
        self.status = Status::Draining;
    }

    /// The workload exited on its own.
    pub fn exit(&mut self)
        ensures
            final(self).status == Status::Exited,
            final(self).pid is None,
            final(self).health == Health::Unknown,
            final(self).ports@ == old(self).ports@,
    {
        self.status = Status::Exited;
        self.pid = None;
        self.health = Health::Unknown;
    }

    /// The drained workload is gone.
    pub fn stop(&mut self)
        ensures
            final(self).status == Status::Stopped,
            final(self).pid is None,
            final(self).health == Health::Unknown,
            final(self).ports@ == old(self).ports@,
    {
        self.status = Status::Stopped;
        self.pid = None;
        self.health = Health::Unknown;
    }
}

} // verus!

verus! {

/// Whether `t` names a workload type the supervisor runs.
pub open spec fn spec_is_workload_type(t: Seq<char>) -> bool {
    t == "process"@ || t == "container"@ || t == "vm"@
}

/// Whether `t` is `process`, `container` or `vm`.
pub fn is_workload_type(t: &str) -> (r: bool)
    ensures
        r == spec_is_workload_type(t@),
{
    str_eq(t, "process") || str_eq(t, "container") || str_eq(t, "vm")
}

/// The `-p HOST:CONTAINER` arguments publishing `ports`.
pub open spec fn publish_args(ports: Seq<(PortMapping, u16)>) -> Seq<Seq<char>>
    decreases ports.len(),
{
    if ports.len() == 0 {
        Seq::empty()
    } else {
        publish_args(ports.drop_last()) + seq![
            "-p"@,
            spec_decimal(ports.last().1 as nat) + ":"@ + spec_decimal(
                ports.last().0.container_port as nat,
            ),
        ]
    }
}

/// The program and arguments that start a workload of type `kind` from `command`: a process
/// runs the command itself, a container runs under `podman run --name NAME --rm` with its
/// ports published, a VM runs `qemu-system-x86_64` with the command as arguments.
pub open spec fn spec_launch(
    kind: Seq<char>,
    command: Seq<Seq<char>>,
    ports: Seq<(PortMapping, u16)>,
    name: Seq<char>,
) -> Result<(Seq<char>, Seq<Seq<char>>), Seq<char>> {
    if kind == "process"@ {
        if command.len() == 0 {
            Err("no command provided"@)
        } else {
            Ok((command[0], command.skip(1)))
        }
    } else if kind == "container"@ {
        if command.len() == 0 {
            Err("no container image specified"@)
        } else {
            Ok(("podman"@, seq!["run"@, "--name"@, name, "--rm"@] + publish_args(ports) + command))
        }
    } else if kind == "vm"@ {
        if command.len() == 0 {
            Err("no qemu arguments provided"@)
        } else {
            Ok(("qemu-system-x86_64"@, command))
        }
    } else {
        Err("unknown workload type: "@ + kind)
    }
}

/// A program to start and its arguments.
#[derive(Debug)]
pub struct LaunchPlan {
    pub program: String,
    pub args: Vec<String>,
}

/// Copies of `v[a..]`.
fn strings_from(v: &Vec<String>, a: usize) -> (r: Vec<String>)
    requires
        a <= v.len(),
    ensures
        sviews(r@) == sviews(v@).skip(a as int),
{
    let mut r: Vec<String> = Vec::new();
    let mut i: usize = a;
    while i < v.len()
        invariant
            a <= i <= v.len(),
            r@.len() == i - a,
            forall|k: int| 0 <= k < r@.len() ==> #[trigger] r@[k]@ == v@[a + k]@,
        decreases v.len() - i,
    {
        r.push(v[i].clone());
        i += 1;
    }
    assert(sviews(r@) =~= sviews(v@).skip(a as int));
    r
}

/// What to run for a workload of type `kind` (see [`spec_launch`]); starting it is left to
/// the caller.
pub fn launch_plan(
    kind: &str,
    command: &Vec<String>,
    ports: &Vec<(PortMapping, u16)>,
    name: &str,
) -> (r: Result<LaunchPlan, String>)
    ensures
        match r {
            Ok(p) => spec_launch(kind@, sviews(command@), ports@, name@) == Ok::<
                (Seq<char>, Seq<Seq<char>>),
                Seq<char>,
            >((p.program@, sviews(p.args@))),
            Err(e) => spec_launch(kind@, sviews(command@), ports@, name@) == Err::<
                (Seq<char>, Seq<Seq<char>>),
                Seq<char>,
            >(e@),
        },
{
    if str_eq(kind, "process") {
        if command.len() == 0 {
            return Err(String::from_str("no command provided"));
        }
        let program = command[0].clone();
        let args = strings_from(command, 1);
        Ok(LaunchPlan { program, args })
    } else if str_eq(kind, "container") {
        if command.len() == 0 {
            return Err(String::from_str("no container image specified"));
        }
        let mut args: Vec<String> = Vec::new();
        args.push(String::from_str("run"));
        args.push(String::from_str("--name"));
        args.push(String::from_str(name));
        args.push(String::from_str("--rm"));
        let ghost head: Seq<Seq<char>> = seq!["run"@, "--name"@, name@, "--rm"@];
        assert(sviews(args@) =~= head);
        let mut i: usize = 0;
        while i < ports.len()
            invariant
                i <= ports.len(),
                head == seq!["run"@, "--name"@, name@, "--rm"@],
                sviews(args@) == head + publish_args(ports@.take(i as int)),
            decreases ports.len() - i,
        {
            assert(ports@.take(i + 1).drop_last() =~= ports@.take(i as int));
            let mapped = decimal(ports[i].1 as u64).concat(":").concat(
                decimal(ports[i].0.container_port as u64).as_str(),
            );
            let ghost before = args@;
            args.push(String::from_str("-p"));
            args.push(mapped);
            proof {
                assert(args@ == before.push(args@[before.len() as int]).push(mapped));
                assert forall|k: int| 0 <= k < before.len() implies #[trigger] sviews(args@)[k] == sviews(before)[k] by {
                    assert(args@[k] == before[k]);
                }
                let t = ports@.take(i + 1);
                assert(t.last() == ports@[i as int]);
                assert(publish_args(t) == publish_args(ports@.take(i as int)) + seq!["-p"@, mapped@]);
                assert(sviews(args@) =~= sviews(before) + seq!["-p"@, mapped@]);
            }
            i += 1;
            assert(sviews(args@) =~= head + publish_args(ports@.take(i as int)));
        }
        assert(ports@.take(i as int) =~= ports@);
        let mut j: usize = 0;
        let ghost mid = args@;
        while j < command.len()
            invariant
                j <= command.len(),
                args@.len() == mid.len() + j,
                forall|k: int| 0 <= k < mid.len() ==> #[trigger] args@[k] == mid[k],
                forall|k: int| 0 <= k < j ==> #[trigger] args@[mid.len() + k]@ == command@[k]@,
            decreases command.len() - j,
        {
            args.push(command[j].clone());
            j += 1;
        }
        assert(sviews(args@) =~= sviews(mid) + sviews(command@)) by {
            assert forall|k: int| 0 <= k < args@.len() implies #[trigger] sviews(args@)[k] == (sviews(mid) + sviews(command@))[k] by {
                if k < mid.len() {
                    assert(args@[k] == mid[k]);
                } else {
                    assert(args@[mid.len() + (k - mid.len())]@ == command@[k - mid.len()]@);
                }
            }
        }
        Ok(LaunchPlan { program: String::from_str("podman"), args })
    } else if str_eq(kind, "vm") {
        if command.len() == 0 {
            return Err(String::from_str("no qemu arguments provided"));
        }
        let args = strings_from(command, 0);
        assert(sviews(command@).skip(0) =~= sviews(command@));
        Ok(LaunchPlan { program: String::from_str("qemu-system-x86_64"), args })
    } else {
        Err(String::from_str("unknown workload type: ").concat(kind))
    }
}

} // verus!

verus! {

/// The health check the options select: `--tcp-check` first, then `--http-check`, then
/// `--exec-check`; none when no option is given.
pub open spec fn spec_health_check(
    tcp: Option<Seq<char>>,
    http: Option<Seq<char>>,
    exec: Option<Seq<char>>,
) -> Result<Option<CheckerView>, Seq<char>> {
    match tcp {
        Some(t) => match spec_parse_check_port(t) {
            Ok(port) => Ok(Some(CheckerView::Tcp { host: "127.0.0.1"@, port })),
            Err(e) => Err("invalid tcp-check port: "@ + e),
        },
        None => match http {
            Some(h) => match spec_parse_http_check(h) {
                Ok((host, port, path)) => Ok(Some(CheckerView::Http { host, port, path })),
                Err(e) => Err("invalid http-check: "@ + e),
            },
            None => match exec {
                Some(c) => Ok(Some(CheckerView::Exec { command: c })),
                None => Ok(None),
            },
        },
    }
}

/// The view of an optional health check.
pub open spec fn opt_checker(c: Option<HealthChecker>) -> Option<CheckerView> {
    match c {
        Some(x) => Some(x@),
        None => None,
    }
}

/// Builds the health check from the `--tcp-check`, `--http-check` and `--exec-check`
/// options.
pub fn build_health_check(tcp: Option<&str>, http: Option<&str>, exec: Option<&str>) -> (r: Result<
    Option<HealthChecker>,
    String,
>)
    ensures
        match r {
            Ok(c) => spec_health_check(opt_text(tcp), opt_text(http), opt_text(exec)) == Ok::<
                Option<CheckerView>,
                Seq<char>,
            >(opt_checker(c)),
            Err(e) => spec_health_check(opt_text(tcp), opt_text(http), opt_text(exec)) == Err::<
                Option<CheckerView>,
                Seq<char>,
            >(e@),
        },
{
    match tcp {
        Some(t) => match parse_check_port(t) {
            Ok(port) => Ok(Some(HealthChecker::tcp(port))),
            Err(e) => Err(String::from_str("invalid tcp-check port: ").concat(e.as_str())),
        },
        None => match http {
            Some(h) => match parse_http_check(h) {
                Ok((host, port, path)) => Ok(Some(HealthChecker::http(host, port, path))),
                Err(e) => Err(String::from_str("invalid http-check: ").concat(e.as_str())),
            },
            None => match exec {
                Some(c) => Ok(Some(HealthChecker::exec(String::from_str(c)))),
                None => Ok(None),
            },
        },
    }
}

} // verus!
