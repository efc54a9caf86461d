//! Placeholder substitution in command templates.

use vstd::prelude::*;
use crate::text::{chars_of, replace_all, spec_replace, string_of};

verus! {

/// A template with `{name}` replaced by `name`, then `{node}` replaced by `node`.
pub open spec fn spec_substitute(template: Seq<char>, name: Seq<char>, node: Seq<char>) -> Seq<char> {
    spec_replace(spec_replace(template, "{name}"@, name), "{node}"@, node)
}

/// Fills in the `{name}` and `{node}` placeholders of a command template.
pub fn substitute(template: &str, name: &str, node: &str) -> (r: String)
    ensures
        r@ == spec_substitute(template@, name@, node@),
{
    let t = chars_of(template);
    let pn = chars_of("{name}");
    let pd = chars_of("{node}");
    proof {
        reveal_strlit("{name}");
        reveal_strlit("{node}");
    }
    let first = replace_all(&t, &pn, &chars_of(name));
    let second = replace_all(&first, &pd, &chars_of(node));
    string_of(&second)
}

} // verus!
