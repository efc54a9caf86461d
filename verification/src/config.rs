//! Plain-text configuration read by the reconciler: the nodes file and spec file names.

use vstd::prelude::*;
use crate::spec::Spec;
use crate::text::{
    chars_of, cviews, is_meaningful, lemma_text_lt_total, lemma_text_lt_transitive, lines,
    spec_lines, spec_trim, str_eq, string_of, sviews, text_less, text_lt, trim_chars,
};

verus! {

/// The trimmed text of each line of a nodes file that names a node.
pub open spec fn spec_node_names(content: Seq<char>) -> Seq<Seq<char>> {
    spec_lines(content).filter(|l: Seq<char>| is_meaningful(l)).map_values(|l: Seq<char>| spec_trim(l))
}

/// The node names listed in a nodes file: one per line, surrounding white space removed,
/// blank lines and lines starting with `#` skipped.
pub fn parse_nodes(content: &str) -> (r: Vec<String>)
    ensures
        sviews(r@) == spec_node_names(content@),
{
    let ls = lines(&chars_of(content));
    let ghost all = cviews(ls@);
    let ghost keep = |l: Seq<char>| is_meaningful(l);
    let mut r: Vec<String> = Vec::new();
    let mut i: usize = 0;
    while i < ls.len()
        invariant
            all == cviews(ls@),
            all == spec_lines(content@),
            keep == (|l: Seq<char>| is_meaningful(l)),
            i <= ls@.len(),
            sviews(r@) == all.take(i as int).filter(keep).map_values(|l: Seq<char>| spec_trim(l)),
        decreases ls.len() - i,
    {
        let ghost t = all.take(i as int);
        proof {
            assert(all.take(i + 1) =~= t.push(ls@[i as int]@));
            t.lemma_filter_push(ls@[i as int]@, keep);
        }
        let line = trim_chars(&ls[i]);
        let ghost r0 = r@;
        if line.len() > 0 && line[0] != '#' {
            let s = string_of(&line);
            r.push(s);
            assert(sviews(r@) =~= sviews(r0).push(s@));
            assert(t.filter(keep).push(ls@[i as int]@).map_values(|l: Seq<char>| spec_trim(l))
                =~= t.filter(keep).map_values(|l: Seq<char>| spec_trim(l)).push(spec_trim(ls@[i as int]@)));
        }
        i += 1;
    }
    assert(all.take(i as int) =~= all);
    r
}

/// The nodes to schedule on: those listed in the nodes file when there is one (an unreadable
/// file counts as empty), otherwise just `localhost`.
pub fn load_nodes(nodes_file_content: Option<&str>) -> (r: Vec<String>)
    ensures
        nodes_file_content matches Some(c) ==> sviews(r@) == spec_node_names(c@),
        nodes_file_content is None ==> sviews(r@) == seq!["localhost"@],
{
    match nodes_file_content {
        Some(c) => parse_nodes(c),
        None => {
            let mut r: Vec<String> = Vec::new();
            let l = String::from_str("localhost");
            r.push(l);
            assert(sviews(r@) =~= seq![l@]);
            r
        },
    }
}

/// The extension of a file name: the text after its last `.`, if it has one that is not
/// its first character.
pub open spec fn has_extension(name: Seq<char>, ext: Seq<char>) -> bool {
    exists|k: int|
        #![trigger name[k]]
        0 < k < name.len() && name[k] == '.' && name.skip(k + 1) == ext && forall|j: int|
            k < j < name.len() ==> name[j] != '.'
}

/// Whether a directory entry name is read as a spec: not hidden, not an editor backup
/// (`~`, `.swp`, `.bak`), and with extension `yaml` or `yml`.
pub open spec fn is_spec_file_name(name: Seq<char>) -> bool {
    &&& !(name.len() > 0 && name[0] == '.')
    &&& !(name.len() > 0 && name.last() == '~')
    &&& !(name.len() >= 4 && name.skip(name.len() - 4) == ".swp"@)
    &&& !(name.len() >= 4 && name.skip(name.len() - 4) == ".bak"@)
    &&& (has_extension(name, "yaml"@) || has_extension(name, "yml"@))
}

fn last_dot(name: &Vec<char>) -> (r: Option<usize>)
    ensures
        match r {
            Some(k) => k < name@.len() && name@[k as int] == '.' && forall|j: int| k < j < name@.len() ==> name@[j] != '.',
            None => forall|j: int| 0 <= j < name@.len() ==> name@[j] != '.',
        },
{
    let mut i: usize = name.len();
    while i > 0
        invariant
            i <= name@.len(),
            forall|j: int| i <= j < name@.len() ==> name@[j] != '.',
        decreases i,
    {
        if name[i - 1] == '.' {
            return Some(i - 1);
        }
        i -= 1;
    }
    None
}

/// Decides whether a directory entry is loaded as a spec file.
pub fn accepts_spec_file(file_name: &str) -> (r: bool)
    ensures
        r == is_spec_file_name(file_name@),
{
    proof {
        reveal_strlit(".swp");
        reveal_strlit(".bak");
        reveal_strlit("yaml");
        reveal_strlit("yml");
    }
    let name = chars_of(file_name);
    let n = name.len();
    if n > 0 && name[0] == '.' {
        return false;
    }
    if n > 0 && name[n - 1] == '~' {
        return false;
    }
    let swp = chars_of(".swp");
    let bak = chars_of(".bak");
    if n >= 4 && (crate::text::occurs_at_exec(&name, n - 4, &swp) || crate::text::occurs_at_exec(&name, n - 4, &bak)) {
        assert(name@.skip(n - 4) =~= name@.subrange(n - 4, n as int));
        return false;
    }
    proof {
        if n >= 4 {
            assert(name@.skip(n - 4) =~= name@.subrange(n - 4, n as int));
        }
    }
    match last_dot(&name) {
        Some(k) => {
            if k == 0 {
                proof {
                    assert(!has_extension(name@, "yaml"@));
                    assert(!has_extension(name@, "yml"@));
                }
                return false;
            }
            assert(k < n);
            let ext = string_of(&crate::text::slice_from(&name, k + 1));
            let r = crate::text::str_eq(ext.as_str(), "yaml") || crate::text::str_eq(ext.as_str(), "yml");
            proof {
                if has_extension(name@, "yaml"@) || has_extension(name@, "yml"@) {
                    let w = choose|w: int|
                        #![trigger name@[w]]
                        0 < w < name@.len() && name@[w] == '.' && (name@.skip(w + 1) == "yaml"@ || name@.skip(w + 1) == "yml"@)
                            && forall|j: int| w < j < name@.len() ==> name@[j] != '.';
                    if w < k {
                        assert(name@[k as int] == '.');
                    } else if w > k {
                        assert(name@[w] == '.');
                    }
                }
                if r {
                    assert(name@[k as int] == '.');
                }
            }
            r
        },
        None => {
            proof {
                if has_extension(name@, "yaml"@) {
                    let w = choose|w: int| #![trigger name@[w]] 0 < w < name@.len() && name@[w] == '.' && name@.skip(w + 1) == "yaml"@
                        && forall|j: int| w < j < name@.len() ==> name@[j] != '.';
                    assert(name@[w] == '.');
                }
                if has_extension(name@, "yml"@) {
                    let w = choose|w: int| #![trigger name@[w]] 0 < w < name@.len() && name@[w] == '.' && name@.skip(w + 1) == "yml"@
                        && forall|j: int| w < j < name@.len() ==> name@[j] != '.';
                    assert(name@[w] == '.');
                }
            }
            false
        },
    }
}

/// `s` ends with `p`.
pub open spec fn ends_with_spec(s: Seq<char>, p: Seq<char>) -> bool {
    p.len() <= s.len() && s.skip(s.len() - p.len()) == p
}

} // verus!

verus! {

/// The last spec of `s` named `n`.
pub open spec fn last_named(s: Seq<Spec>, n: Seq<char>) -> Option<Spec>
    decreases s.len(),
{
    if s.len() == 0 {
        None
    } else if s.last().name@ == n {
        Some(s.last())
    } else {
        last_named(s.drop_last(), n)
    }
}

/// `r` holds the specs of `s` keyed by name: in ascending name order, one per name that
/// occurs in `s`, and that one the last of `s` with its name.
pub open spec fn keyed_by_name(s: Seq<Spec>, r: Seq<Spec>) -> bool {
    &&& forall|a: int, b: int| 0 <= a < b < r.len() ==> text_lt(r[a].name@, r[b].name@)
    &&& forall|g: int| 0 <= g < r.len() ==> last_named(s, #[trigger] r[g].name@) == Some(r[g])
    &&& forall|k: int| 0 <= k < s.len() ==> has_name(r, #[trigger] s[k].name@)
}

/// Some spec of `r` is named `n`.
pub open spec fn has_name(r: Seq<Spec>, n: Seq<char>) -> bool {
    exists|g: int| 0 <= g < r.len() && #[trigger] r[g].name@ == n
}

/// The desired specs, in the order they are read: keyed by name (a later spec replaces an
/// earlier one with the same name) and in ascending name order.
pub fn collect_specs(specs: Vec<Spec>) -> (r: Vec<Spec>)
    ensures
        keyed_by_name(specs@, r@),
{
    let ghost orig = specs@;
    let mut input = specs;
    let total = input.len();
    let mut r: Vec<Spec> = Vec::new();
    let mut i: usize = 0;
    while input.len() > 0
        invariant
            orig.len() == total,
            i <= orig.len(),
            input@ == orig.skip(i as int),
            forall|a: int, b: int| 0 <= a < b < r@.len() ==> text_lt(r@[a].name@, r@[b].name@),
            forall|g: int| 0 <= g < r@.len() ==> last_named(orig.take(i as int), #[trigger] r@[g].name@) == Some(r@[g]),
            forall|k: int| 0 <= k < i ==> has_name(r@, #[trigger] orig[k].name@),
        decreases input.len(),
    {
        let ghost r0 = r@;
        let ghost t = orig.take(i + 1);
        assert(orig.skip(i as int)[0] == orig[i as int]);
        let s = input.remove(0);
        assert(input@ =~= orig.skip(i + 1));
        assert(t.drop_last() =~= orig.take(i as int));
        assert(t.last() == s);
        let nm = chars_of(s.name.as_str());
        let mut pos: usize = 0;
        while pos < r.len() && text_less(&chars_of(r[pos].name.as_str()), &nm)
            invariant
                r@ == r0,
                pos <= r@.len(),
                nm@ == s.name@,
                forall|a: int| 0 <= a < pos ==> text_lt(r0[a].name@, nm@),
            decreases r.len() - pos,
        {
            pos += 1;
        }
        let present = pos < r.len() && str_eq(r[pos].name.as_str(), s.name.as_str());
        proof {
            assert forall|g: int| 0 <= g < r0.len() && g != pos implies r0[g].name@ != s.name@ by {
                if g < pos {
                    lemma_text_lt_total(r0[g].name@, s.name@);
                } else {
                    lemma_text_lt_total(r0[pos as int].name@, s.name@);
                    if present {
                        lemma_text_lt_total(r0[pos as int].name@, r0[g].name@);
                    } else {
                        lemma_text_lt_transitive(s.name@, r0[pos as int].name@, r0[g].name@);
                        lemma_text_lt_total(s.name@, r0[g].name@);
                    }
                }
            }
            if !present {
                assert forall|a: int| pos <= a < r0.len() implies text_lt(s.name@, r0[a].name@) by {
                    lemma_text_lt_total(r0[pos as int].name@, s.name@);
                    if a > pos {
                        lemma_text_lt_transitive(s.name@, r0[pos as int].name@, r0[a].name@);
                    }
                }
            }
        }
        if present {
            r.set(pos, s);
            proof {
                assert forall|a: int, b: int| 0 <= a < b < r@.len() implies text_lt(r@[a].name@, r@[b].name@) by {
                    assert(r@[a].name@ == r0[a].name@);
                    assert(r@[b].name@ == r0[b].name@);
                }
                assert forall|g: int| 0 <= g < r@.len() implies last_named(t, #[trigger] r@[g].name@) == Some(r@[g]) by {
                    if g != pos {
                        assert(r@[g] == r0[g]);
                    }
                }
                assert forall|k: int| 0 <= k < i + 1 implies has_name(r@, #[trigger] orig[k].name@) by {
                    if k == i {
                        assert(r@[pos as int].name@ == orig[k].name@);
                    } else {
                        let g = choose|g: int| 0 <= g < r0.len() && #[trigger] r0[g].name@ == orig[k].name@;
                        assert(r@[g].name@ == r0[g].name@);
                    }
                }
            }
        } else {
            r.insert(pos, s);
            proof {
                assert forall|a: int, b: int| 0 <= a < b < r@.len() implies text_lt(r@[a].name@, r@[b].name@) by {
                    if b < pos {
                        assert(r@[a] == r0[a] && r@[b] == r0[b]);
                    } else if b == pos {
                        assert(r@[a] == r0[a]);
                    } else if a < pos {
                        assert(r@[a] == r0[a] && r@[b] == r0[b - 1]);
                        lemma_text_lt_transitive(r0[a].name@, s.name@, r0[b - 1].name@);
                    } else if a == pos {
                        assert(r@[b] == r0[b - 1]);
                    } else {
                        assert(r@[a] == r0[a - 1] && r@[b] == r0[b - 1]);
                    }
                }
                assert forall|g: int| 0 <= g < r@.len() implies last_named(t, #[trigger] r@[g].name@) == Some(r@[g]) by {
                    if g < pos {
                        assert(r@[g] == r0[g]);
                    } else if g > pos {
                        assert(r@[g] == r0[g - 1]);
                    }
                }
                assert forall|k: int| 0 <= k < i + 1 implies has_name(r@, #[trigger] orig[k].name@) by {
                    if k == i {
                        assert(r@[pos as int].name@ == orig[k].name@);
                    } else {
                        let g = choose|g: int| 0 <= g < r0.len() && #[trigger] r0[g].name@ == orig[k].name@;
                        if g < pos {
                            assert(r@[g] == r0[g]);
                        } else {
                            assert(r@[g + 1] == r0[g]);
                        }
                    }
                }
            }
        }
        i += 1;
    }
    assert(orig.take(i as int) =~= orig);
    r
}

} // verus!
