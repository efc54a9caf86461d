//! Deep merge of configuration documents (JSON Merge Patch, RFC 7396).

use vstd::prelude::*;
use crate::text::{ends_with, str_eq};

verus! {

/// A JSON document. Numbers keep their text; object entries keep their order and are
/// expected to have distinct keys.
#[derive(Debug)]
pub enum JsonValue {
    Null,
    Bool(bool),
    Number(String),
    Str(String),
    Array(Vec<JsonValue>),
    Object(Vec<(String, JsonValue)>),
}

/// The content of a JSON document.
pub enum JsonView {
    Null,
    Bool(bool),
    Number(Seq<char>),
    Str(Seq<char>),
    Array(Seq<JsonView>),
    Object(Seq<(Seq<char>, JsonView)>),
}

/// The content of a document.
pub open spec fn jview(v: JsonValue) -> JsonView
    decreases v,
{
    match v {
        JsonValue::Null => JsonView::Null,
        JsonValue::Bool(b) => JsonView::Bool(b),
        JsonValue::Number(n) => JsonView::Number(n@),
        JsonValue::Str(s) => JsonView::Str(s@),
        JsonValue::Array(a) => JsonView::Array(jviews(a@)),
        JsonValue::Object(o) => JsonView::Object(jentries(o@)),
    }
}

/// The contents of a sequence of documents.
pub open spec fn jviews(s: Seq<JsonValue>) -> Seq<JsonView>
    decreases s,
{
    if s.len() == 0 {
        Seq::empty()
    } else {
        jviews(s.drop_last()).push(jview(s.last()))
    }
}

/// The contents of object entries.
pub open spec fn jentries(s: Seq<(String, JsonValue)>) -> Seq<(Seq<char>, JsonView)>
    decreases s,
{
    if s.len() == 0 {
        Seq::empty()
    } else {
        jentries(s.drop_last()).push((s.last().0@, jview(s.last().1)))
    }
}

impl View for JsonValue {
    type V = JsonView;

    open spec fn view(&self) -> JsonView {
        jview(*self)
    }
}

} // verus!

verus! {

/// Entries of `t` when it is an object; none otherwise.
pub open spec fn object_entries(t: JsonView) -> Seq<(Seq<char>, JsonView)> {
    match t {
        JsonView::Object(es) => es,
        _ => Seq::empty(),
    }
}

/// `i` is the first position of key `k` among `es`.
pub open spec fn first_key_at(es: Seq<(Seq<char>, JsonView)>, k: Seq<char>, i: int) -> bool {
    &&& 0 <= i < es.len()
    &&& es[i].0 == k
    &&& forall|j: int| 0 <= j < i ==> es[j].0 != k
}

/// Position of the first entry with key `k`, or -1 when there is none.
pub open spec fn key_index(es: Seq<(Seq<char>, JsonView)>, k: Seq<char>) -> int {
    if exists|i: int| first_key_at(es, k, i) {
        choose|i: int| first_key_at(es, k, i)
    } else {
        -1
    }
}

/// The result of applying merge patch `p` to document `t` (RFC 7396): a patch that is not
/// an object replaces the target; an object patch is applied key by key to the target's
/// entries (a target that is not an object counts as an empty one).
pub open spec fn merge_doc(t: JsonView, p: JsonView) -> JsonView
    decreases p, 0nat,
{
    match p {
        JsonView::Object(pe) => JsonView::Object(apply_entries(object_entries(t), pe)),
        _ => p,
    }
}

/// Entries `es` after applying the patch entries `pe` in order.
pub open spec fn apply_entries(
    es: Seq<(Seq<char>, JsonView)>,
    pe: Seq<(Seq<char>, JsonView)>,
) -> Seq<(Seq<char>, JsonView)>
    decreases pe, 0nat,
{
    if pe.len() == 0 {
        es
    } else {
        apply_entry(apply_entries(es, pe.drop_last()), pe.last().0, pe.last().1)
    }
}

/// Entries `es` after applying one patch entry: `null` removes the key, a key already
/// present has its value merged with `v`, a new key is added with `v` merged into nothing.
pub open spec fn apply_entry(es: Seq<(Seq<char>, JsonView)>, k: Seq<char>, v: JsonView) -> Seq<
    (Seq<char>, JsonView),
>
    decreases v, 1nat,
{
    let i = key_index(es, k);
    if v is Null {
        if i >= 0 {
            es.remove(i)
        } else {
            es
        }
    } else if i >= 0 {
        es.update(i, (k, merge_doc(es[i].1, v)))
    } else {
        es.push((k, merge_doc(JsonView::Null, v)))
    }
}

/// Pointwise description of `jentries`.
pub proof fn lemma_jentries(s: Seq<(String, JsonValue)>)
    ensures
        jentries(s).len() == s.len(),
        forall|i: int| 0 <= i < s.len() ==> #[trigger] jentries(s)[i] == (s[i].0@, jview(s[i].1)),
    decreases s.len(),
{
    if s.len() > 0 {
        lemma_jentries(s.drop_last());
    }
}

/// Pointwise description of `jviews`.
pub proof fn lemma_jviews(s: Seq<JsonValue>)
    ensures
        jviews(s).len() == s.len(),
        forall|i: int| 0 <= i < s.len() ==> #[trigger] jviews(s)[i] == jview(s[i]),
    decreases s.len(),
{
    if s.len() > 0 {
        lemma_jviews(s.drop_last());
    }
}

/// A copy of a document.
pub fn clone_json(v: &JsonValue) -> (r: JsonValue)
    ensures
        r@ == v@,
    decreases v,
{
    match v {
        JsonValue::Null => JsonValue::Null,
        JsonValue::Bool(b) => JsonValue::Bool(*b),
        JsonValue::Number(n) => JsonValue::Number(n.clone()),
        JsonValue::Str(s) => JsonValue::Str(s.clone()),
        JsonValue::Array(a) => {
            let mut out: Vec<JsonValue> = Vec::new();
            let mut i: usize = 0;
            while i < a.len()
                invariant
                    i <= a.len(),
                    out@.len() == i,
                    *v == JsonValue::Array(*a),
                    forall|j: int| 0 <= j < i ==> #[trigger] jview(out@[j]) == jview(a@[j]),
                decreases a.len() - i,
            {
                proof {
                    assert(decreases_to!(*v => (*v)->Array_0));
                    assert(decreases_to!(*a => a@));
                    assert(decreases_to!(a@ => a@[i as int]));
                }
                let c = clone_json(&a[i]);
                out.push(c);
                i += 1;
            }
            proof {
                lemma_jviews(out@);
                lemma_jviews(a@);
                assert(jviews(out@) =~= jviews(a@));
            }
            JsonValue::Array(out)
        },
        JsonValue::Object(o) => {
            let mut out: Vec<(String, JsonValue)> = Vec::new();
            let mut i: usize = 0;
            while i < o.len()
                invariant
                    i <= o.len(),
                    out@.len() == i,
                    *v == JsonValue::Object(*o),
                    forall|j: int|
                        0 <= j < i ==> #[trigger] out@[j].0@ == o@[j].0@ && jview(out@[j].1)
                            == jview(o@[j].1),
                decreases o.len() - i,
            {
                proof {
                    assert(decreases_to!(*v => (*v)->Object_0));
                    assert(decreases_to!(*o => o@));
                    assert(decreases_to!(o@ => o@[i as int]));
                    assert(decreases_to!(o@[i as int] => o@[i as int].1));
                }
                let k = o[i].0.clone();
                let c = clone_json(&o[i].1);
                out.push((k, c));
                i += 1;
            }
            proof {
                lemma_jentries(out@);
                lemma_jentries(o@);
                assert(jentries(out@) =~= jentries(o@));
            }
            JsonValue::Object(out)
        },
    }
}

} // verus!

verus! {

/// The first position of key `k` is unique.
pub proof fn lemma_key_index_at(es: Seq<(Seq<char>, JsonView)>, k: Seq<char>, i: int)
    requires
        first_key_at(es, k, i),
    ensures
        key_index(es, k) == i,
{
    let c = choose|c: int| first_key_at(es, k, c);
    assert(first_key_at(es, k, c));
    if c < i {
        assert(es[c].0 != k);
    } else if i < c {
        assert(es[i].0 != k);
    }
}

/// Without an entry for `k` its position is -1.
pub proof fn lemma_key_index_absent(es: Seq<(Seq<char>, JsonView)>, k: Seq<char>)
    requires
        forall|j: int| 0 <= j < es.len() ==> es[j].0 != k,
    ensures
        key_index(es, k) == -1,
{
    if exists|i: int| first_key_at(es, k, i) {
        let c = choose|c: int| first_key_at(es, k, c);
        assert(es[c].0 == k);
    }
}

/// Some occurrence of `k` at or before `j` is the first one.
proof fn lemma_first_key_exists(es: Seq<(Seq<char>, JsonView)>, k: Seq<char>, j: int)
    requires
        0 <= j < es.len(),
        es[j].0 == k,
    ensures
        exists|i: int| first_key_at(es, k, i),
    decreases j,
{
    if forall|x: int| 0 <= x < j ==> es[x].0 != k {
        assert(first_key_at(es, k, j));
    } else {
        let x = choose|x: int| 0 <= x < j && es[x].0 == k;
        lemma_first_key_exists(es, k, x);
    }
}

/// A found position lies within the entries and holds key `k`; -1 means no entry has it.
pub proof fn lemma_key_index_range(es: Seq<(Seq<char>, JsonView)>, k: Seq<char>)
    ensures
        -1 <= key_index(es, k) < es.len(),
        key_index(es, k) >= 0 ==> first_key_at(es, k, key_index(es, k)),
        key_index(es, k) == -1 ==> forall|j: int| 0 <= j < es.len() ==> es[j].0 != k,
{
    if exists|i: int| first_key_at(es, k, i) {
        let c = choose|c: int| first_key_at(es, k, c);
        assert(first_key_at(es, k, c));
    } else {
        assert forall|j: int| 0 <= j < es.len() implies es[j].0 != k by {
            if es[j].0 == k {
                lemma_first_key_exists(es, k, j);
            }
        }
    }
}

} // verus!

verus! {

/// Position of the first entry with key `k`.
fn find_key(es: &Vec<(String, JsonValue)>, k: &String) -> (r: Option<usize>)
    ensures
        match r {
            Some(i) => i as int == key_index(jentries(es@), k@) && i < es@.len(),
            None => key_index(jentries(es@), k@) == -1,
        },
{
    proof {
        lemma_jentries(es@);
    }
    let mut i: usize = 0;
    while i < es.len()
        invariant
            i <= es.len(),
            jentries(es@).len() == es@.len(),
            forall|j: int| 0 <= j < es@.len() ==> #[trigger] jentries(es@)[j] == (es@[j].0@, jview(es@[j].1)),
            forall|j: int| 0 <= j < i ==> #[trigger] jentries(es@)[j].0 != k@,
        decreases es.len() - i,
    {
        if es[i].0 == *k {
            proof {
                assert(jentries(es@)[i as int].0 == k@);
                assert(first_key_at(jentries(es@), k@, i as int));
                lemma_key_index_at(jentries(es@), k@, i as int);
            }
            return Some(i);
        }
        i += 1;
    }
    proof {
        lemma_key_index_absent(jentries(es@), k@);
    }
    None
}

/// Applies one patch entry (`k`, `v`) to object entries `es`.
fn merge_entry(es: &mut Vec<(String, JsonValue)>, k: &String, v: &JsonValue)
    ensures
        jentries(final(es)@) == apply_entry(jentries(old(es)@), k@, v@),
    decreases *v, 1nat,
{
    let ghost e0 = jentries(es@);
    proof {
        lemma_jentries(es@);
        lemma_key_index_range(e0, k@);
    }
    let found = find_key(es, k);
    match v {
        JsonValue::Null => {
            match found {
                Some(i) => {
                    let _ = es.remove(i);
                    proof {
                        lemma_jentries(es@);
                        assert(jentries(es@) =~= e0.remove(i as int));
                    }
                },
                None => {},
            }
        },
        _ => {
            match found {
                Some(i) => {
                    let (key, mut val) = es.remove(i);
                    merge_into(&mut val, v);
                    es.insert(i, (key, val));
                    proof {
                        lemma_jentries(es@);
                        assert(jentries(es@) =~= e0.update(i as int, (k@, merge_doc(e0[i as int].1, v@))));
                    }
                },
                None => {
                    let mut val = JsonValue::Null;
                    merge_into(&mut val, v);
                    es.push((k.clone(), val));
                    proof {
                        lemma_jentries(es@);
                        assert(jentries(es@) =~= e0.push((k@, merge_doc(JsonView::Null, v@))));
                    }
                },
            }
        },
    }
}

/// Applies merge patch `patch` to `base` (RFC 7396): objects are merged key by key,
/// `null` removes a key, anything else replaces the target. Both are JSON documents, whose
/// objects hold each key once.
pub fn merge(base: &mut JsonValue, patch: &JsonValue)
    requires
        wf_doc(old(base)@),
        wf_doc(patch@),
    ensures
        final(base)@ == merge_doc(old(base)@, patch@),
{
    merge_into(base, patch);
}

/// [`merge`] on any documents, valid or not.
fn merge_into(base: &mut JsonValue, patch: &JsonValue)
    ensures
        final(base)@ == merge_doc(old(base)@, patch@),
    decreases *patch, 0nat,
{
    let ghost b0 = base@;
    match patch {
        JsonValue::Object(pe) => {
            let mut taken = JsonValue::Null;
            std::mem::swap(&mut taken, base);
            let mut es: Vec<(String, JsonValue)> = match taken {
                JsonValue::Object(e) => e,
                _ => Vec::new(),
            };
            proof {
                lemma_jentries(pe@);
                assert(jentries(es@) =~= object_entries(b0));
            }
            let mut i: usize = 0;
            while i < pe.len()
                invariant
                    i <= pe.len(),
                    *patch == JsonValue::Object(*pe),
                    jentries(pe@).len() == pe@.len(),
                    forall|j: int| 0 <= j < pe@.len() ==> #[trigger] jentries(pe@)[j] == (pe@[j].0@, jview(pe@[j].1)),
                    jentries(es@) == apply_entries(object_entries(b0), jentries(pe@).take(i as int)),
                decreases pe.len() - i,
            {
                proof {
                    assert(decreases_to!(*patch => (*patch)->Object_0));
                    assert(decreases_to!(*pe => pe@));
                    assert(decreases_to!(pe@ => pe@[i as int]));
                    assert(decreases_to!(pe@[i as int] => pe@[i as int].1));
                }
                merge_entry(&mut es, &pe[i].0, &pe[i].1);
                proof {
                    let t = jentries(pe@).take(i + 1);
                    assert(t.drop_last() =~= jentries(pe@).take(i as int));
                    assert(t.last() == jentries(pe@)[i as int]);
                }
                i += 1;
            }
            proof {
                assert(jentries(pe@).take(pe@.len() as int) =~= jentries(pe@));
            }
            *base = JsonValue::Object(es);
        },
        _ => {
            *base = clone_json(patch);
        },
    }
}

} // verus!

verus! {

/// No two entries share a key.
pub open spec fn distinct_keys(es: Seq<(Seq<char>, JsonView)>) -> bool {
    forall|i: int, j: int| 0 <= i < es.len() && 0 <= j < es.len() && i != j ==> es[i].0 != es[j].0
}

/// The value stored under key `k` among entries `es`.
pub open spec fn entry_get(es: Seq<(Seq<char>, JsonView)>, k: Seq<char>) -> Option<JsonView> {
    let i = key_index(es, k);
    if i >= 0 {
        Some(es[i].1)
    } else {
        None
    }
}

/// The member `k` of document `t`; `None` when `t` is not an object or has no such member.
pub open spec fn member(t: JsonView, k: Seq<char>) -> Option<JsonView> {
    entry_get(object_entries(t), k)
}

/// What member `k` becomes when patch entries carrying `patched` under `k` are applied to
/// entries carrying `old`.
pub open spec fn patched_member(old: Option<JsonView>, patched: Option<JsonView>) -> Option<
    JsonView,
> {
    match patched {
        Some(v) => if v is Null {
            None
        } else {
            Some(
                merge_doc(
                    match old {
                        Some(x) => x,
                        None => JsonView::Null,
                    },
                    v,
                ),
            )
        },
        None => old,
    }
}

/// With distinct keys, the entry holding `k` gives the lookup.
proof fn lemma_get_at(es: Seq<(Seq<char>, JsonView)>, k: Seq<char>, i: int)
    requires
        distinct_keys(es),
        0 <= i < es.len(),
        es[i].0 == k,
    ensures
        entry_get(es, k) == Some(es[i].1),
{
    assert(first_key_at(es, k, i));
    lemma_key_index_at(es, k, i);
}

/// Lookup in entries with distinct keys is decided by whether some entry holds the key.
proof fn lemma_get_cases(es: Seq<(Seq<char>, JsonView)>, k: Seq<char>)
    requires
        distinct_keys(es),
    ensures
        entry_get(es, k) is None <==> forall|j: int| 0 <= j < es.len() ==> es[j].0 != k,
        forall|j: int| 0 <= j < es.len() && es[j].0 == k ==> entry_get(es, k) == Some(es[j].1),
{
    lemma_key_index_range(es, k);
    assert forall|j: int| 0 <= j < es.len() && es[j].0 == k implies entry_get(es, k) == Some(es[j].1) by {
        lemma_get_at(es, k, j);
    }
}

/// One patch entry keeps keys distinct, sets member `kl` as patched, and leaves the others.
proof fn lemma_apply_entry(es: Seq<(Seq<char>, JsonView)>, kl: Seq<char>, vl: JsonView)
    requires
        distinct_keys(es),
    ensures
        distinct_keys(apply_entry(es, kl, vl)),
        entry_get(apply_entry(es, kl, vl), kl) == patched_member(entry_get(es, kl), Some(vl)),
        forall|k: Seq<char>| k != kl ==> #[trigger] entry_get(apply_entry(es, kl, vl), k) == entry_get(es, k),
{
    let r = apply_entry(es, kl, vl);
    let i = key_index(es, kl);
    lemma_key_index_range(es, kl);
    lemma_get_cases(es, kl);
    assert(distinct_keys(r));
    assert forall|k: Seq<char>| k != kl implies #[trigger] entry_get(r, k) == entry_get(es, k) by {
        lemma_get_cases(es, k);
        lemma_get_cases(r, k);
        if exists|j: int| 0 <= j < es.len() && es[j].0 == k {
            let j = choose|j: int| 0 <= j < es.len() && es[j].0 == k;
            if vl is Null && i >= 0 {
                if j < i {
                    assert(r[j] == es[j]);
                } else {
                    assert(r[j - 1] == es[j]);
                }
            } else {
                assert(r[j] == es[j]);
            }
        } else {
            assert forall|j: int| 0 <= j < r.len() implies r[j].0 != k by {
                if vl is Null && i >= 0 {
                    if j < i {
                        assert(r[j] == es[j]);
                    } else {
                        assert(r[j] == es[j + 1]);
                    }
                } else if j < es.len() {
                    assert(r[j].0 == es[j].0);
                }
            }
        }
    }
    lemma_get_cases(r, kl);
    if vl is Null {
        if i >= 0 {
            assert forall|j: int| 0 <= j < r.len() implies r[j].0 != kl by {
                if j < i {
                    assert(r[j] == es[j]);
                } else {
                    assert(r[j] == es[j + 1]);
                }
            }
        }
    } else if i >= 0 {
        assert(r[i].0 == kl);
    } else {
        assert(r[es.len() as int].0 == kl);
    }
}

} // verus!

verus! {

/// Applying patch entries with distinct keys sets every member as patched.
proof fn lemma_apply_entries(es: Seq<(Seq<char>, JsonView)>, pe: Seq<(Seq<char>, JsonView)>)
    requires
        distinct_keys(es),
        distinct_keys(pe),
    ensures
        distinct_keys(apply_entries(es, pe)),
        forall|k: Seq<char>|
            #[trigger] entry_get(apply_entries(es, pe), k) == patched_member(
                entry_get(es, k),
                entry_get(pe, k),
            ),
    decreases pe.len(),
{
    if pe.len() > 0 {
        let prev = pe.drop_last();
        let kl = pe.last().0;
        let vl = pe.last().1;
        assert(distinct_keys(prev));
        lemma_apply_entries(es, prev);
        let r0 = apply_entries(es, prev);
        lemma_apply_entry(r0, kl, vl);
        assert forall|k: Seq<char>|
            #[trigger] entry_get(apply_entries(es, pe), k) == patched_member(
                entry_get(es, k),
                entry_get(pe, k),
            ) by {
            lemma_get_cases(pe, k);
            lemma_get_cases(prev, k);
            if k == kl {
                lemma_get_at(pe, k, pe.len() - 1);
                assert forall|j: int| 0 <= j < prev.len() implies prev[j].0 != k by {
                    assert(pe[j].0 != pe[pe.len() - 1].0);
                }
            } else {
                if exists|j: int| 0 <= j < pe.len() && pe[j].0 == k {
                    let j = choose|j: int| 0 <= j < pe.len() && pe[j].0 == k;
                    assert(prev[j] == pe[j]);
                } else {
                    assert forall|j: int| 0 <= j < prev.len() implies prev[j].0 != k by {
                        assert(prev[j] == pe[j]);
                    }
                }
            }
        }
    }
}

/// Merging a patch that is not an object (an array, a scalar or `null`) replaces the
/// document with the patch: arrays and scalars are replaced wholesale.
pub proof fn law_non_object_patch_replaces(t: JsonView, p: JsonView)
    requires
        !(p is Object),
    ensures
        merge_doc(t, p) == p,
{
}

/// Merging an object patch gives an object with distinct keys in which, for every key:
/// a `null` in the patch removes the member; a key the patch does not mention keeps the
/// target's member; any other patch value is merged recursively into the target's member
/// (or into nothing when the target lacks it, or is not an object).
pub proof fn law_object_patch_members(t: JsonView, p: JsonView, k: Seq<char>)
    requires
        p is Object,
        distinct_keys(object_entries(t)),
        distinct_keys(object_entries(p)),
    ensures
        merge_doc(t, p) is Object,
        distinct_keys(object_entries(merge_doc(t, p))),
        match member(p, k) {
            Some(v) => if v is Null {
                member(merge_doc(t, p), k) is None
            } else {
                member(merge_doc(t, p), k) == Some(
                    merge_doc(
                        match member(t, k) {
                            Some(x) => x,
                            None => JsonView::Null,
                        },
                        v,
                    ),
                )
            },
            None => member(merge_doc(t, p), k) == member(t, k),
        },
{
    lemma_apply_entries(object_entries(t), object_entries(p));
}

} // verus!

verus! {

/// Every object in the document, at any depth outside arrays, has distinct keys (as a
/// parsed JSON or YAML document does).
pub open spec fn wf_doc(v: JsonView) -> bool
    decreases v, 0nat,
{
    match v {
        JsonView::Object(es) => distinct_keys(es) && wf_entries(es),
        _ => true,
    }
}

/// Every value among the entries satisfies [`wf_doc`].
pub open spec fn wf_entries(es: Seq<(Seq<char>, JsonView)>) -> bool
    decreases es, 0nat,
{
    if es.len() == 0 {
        true
    } else {
        wf_entries(es.drop_last()) && wf_doc(es.last().1)
    }
}

proof fn lemma_wf_entries(es: Seq<(Seq<char>, JsonView)>, i: int)
    requires
        wf_entries(es),
        0 <= i < es.len(),
    ensures
        wf_doc(es[i].1),
    decreases es.len(),
{
    if i < es.len() - 1 {
        lemma_wf_entries(es.drop_last(), i);
    }
}

/// Entries that already reflect patch entries `pe` are left as they are by them.
proof fn lemma_entries_fixed(
    e: Seq<(Seq<char>, JsonView)>,
    pe: Seq<(Seq<char>, JsonView)>,
    j: int,
)
    requires
        distinct_keys(e),
        wf_entries(e),
        distinct_keys(pe),
        wf_entries(pe),
        0 <= j <= pe.len(),
    ensures
        apply_entries(apply_entries(e, pe), pe.take(j)) == apply_entries(e, pe),
    decreases pe, j,
{
    let a = apply_entries(e, pe);
    if j > 0 {
        lemma_entries_fixed(e, pe, j - 1);
        let t = pe.take(j);
        assert(t.drop_last() =~= pe.take(j - 1));
        let k = pe[j - 1].0;
        let v = pe[j - 1].1;
        assert(t.last() == pe[j - 1]);
        lemma_apply_entries(e, pe);
        lemma_get_at(pe, k, j - 1);
        lemma_key_index_range(a, k);
        let i = key_index(a, k);
        assert(apply_entries(a, t) == apply_entry(apply_entries(a, t.drop_last()), k, v));
        assert(apply_entries(a, t) == apply_entry(a, k, v));
        if v is Null {
            assert(entry_get(a, k) is None);
            assert(i == -1);
            assert(apply_entry(a, k, v) == a);
        } else {
            let x = match entry_get(e, k) {
                Some(y) => y,
                None => JsonView::Null,
            };
            assert(entry_get(a, k) == Some(merge_doc(x, v)));
            lemma_key_index_range(e, k);
            if entry_get(e, k) is Some {
                lemma_wf_entries(e, key_index(e, k));
            }
            lemma_wf_entries(pe, j - 1);
            assert(decreases_to!(pe => pe[j - 1]));
            lemma_merge_idempotent(x, v);
            assert(a.update(i, (k, merge_doc(a[i].1, v))) =~= a);
        }
    } else {
        assert(pe.take(0) =~= Seq::<(Seq<char>, JsonView)>::empty());
    }
}

/// [`wf_entries`] holds exactly when every value satisfies [`wf_doc`].
proof fn lemma_wf_entries_iff(es: Seq<(Seq<char>, JsonView)>)
    ensures
        wf_entries(es) <==> forall|i: int| 0 <= i < es.len() ==> wf_doc(#[trigger] es[i].1),
    decreases es.len(),
{
    if es.len() > 0 {
        lemma_wf_entries_iff(es.drop_last());
        if forall|i: int| 0 <= i < es.len() ==> wf_doc(#[trigger] es[i].1) {
            assert forall|i: int| 0 <= i < es.drop_last().len() implies wf_doc(#[trigger] es.drop_last()[i].1) by {
                assert(es.drop_last()[i] == es[i]);
            }
            assert(wf_doc(es[es.len() - 1].1));
        }
        if wf_entries(es) {
            assert forall|i: int| 0 <= i < es.len() implies wf_doc(#[trigger] es[i].1) by {
                if i < es.len() - 1 {
                    assert(es.drop_last()[i] == es[i]);
                }
            }
        }
    }
}

/// Applying a prefix of valid patch entries to valid entries keeps them valid.
proof fn lemma_apply_entries_wf(
    e: Seq<(Seq<char>, JsonView)>,
    pe: Seq<(Seq<char>, JsonView)>,
    j: int,
)
    requires
        distinct_keys(e),
        wf_entries(e),
        distinct_keys(pe),
        wf_entries(pe),
        0 <= j <= pe.len(),
    ensures
        distinct_keys(apply_entries(e, pe.take(j))),
        wf_entries(apply_entries(e, pe.take(j))),
    decreases pe, j,
{
    let t = pe.take(j);
    if j > 0 {
        lemma_apply_entries_wf(e, pe, j - 1);
        assert(t.drop_last() =~= pe.take(j - 1));
        let prev = apply_entries(e, pe.take(j - 1));
        let k = pe[j - 1].0;
        let v = pe[j - 1].1;
        assert(t.last() == pe[j - 1]);
        let r = apply_entry(prev, k, v);
        assert(apply_entries(e, t) == r);
        lemma_apply_entry(prev, k, v);
        lemma_key_index_range(prev, k);
        lemma_wf_entries_iff(prev);
        lemma_wf_entries_iff(r);
        lemma_wf_entries(pe, j - 1);
        assert(decreases_to!(pe => pe[j - 1]));
        let i = key_index(prev, k);
        if v is Null {
            if i >= 0 {
                assert forall|x: int| 0 <= x < r.len() implies wf_doc(#[trigger] r[x].1) by {
                    if x < i {
                        assert(r[x] == prev[x]);
                    } else {
                        assert(r[x] == prev[x + 1]);
                    }
                }
            }
        } else if i >= 0 {
            lemma_merge_keeps_wf(prev[i].1, v);
            assert forall|x: int| 0 <= x < r.len() implies wf_doc(#[trigger] r[x].1) by {
                if x != i {
                    assert(r[x] == prev[x]);
                }
            }
        } else {
            lemma_merge_keeps_wf(JsonView::Null, v);
            assert forall|x: int| 0 <= x < r.len() implies wf_doc(#[trigger] r[x].1) by {
                if x < prev.len() {
                    assert(r[x] == prev[x]);
                }
            }
        }
    } else {
        assert(t =~= Seq::<(Seq<char>, JsonView)>::empty());
    }
}

proof fn lemma_merge_keeps_wf(t: JsonView, p: JsonView)
    requires
        wf_doc(t),
        wf_doc(p),
    ensures
        wf_doc(merge_doc(t, p)),
    decreases p, 0int,
{
    match p {
        JsonView::Object(pe) => {
            lemma_apply_entries_wf(object_entries(t), pe, pe.len() as int);
            assert(pe.take(pe.len() as int) =~= pe);
        },
        _ => {},
    }
}

/// Merging a valid patch into a valid document gives a valid document: objects keep
/// distinct keys at every depth.
pub proof fn law_merge_keeps_wf(t: JsonView, p: JsonView)
    requires
        wf_doc(t),
        wf_doc(p),
    ensures
        wf_doc(merge_doc(t, p)),
{
    lemma_merge_keeps_wf(t, p);
}

/// Applying the same patch twice gives the same document as applying it once, for every
/// document and patch that [`merge`] accepts.
pub proof fn law_merge_idempotent(t: JsonView, p: JsonView)
    requires
        wf_doc(t),
        wf_doc(p),
    ensures
        merge_doc(merge_doc(t, p), p) == merge_doc(t, p),
{
    lemma_merge_idempotent(t, p);
}

proof fn lemma_merge_idempotent(t: JsonView, p: JsonView)
    requires
        wf_doc(t),
        wf_doc(p),
    ensures
        merge_doc(merge_doc(t, p), p) == merge_doc(t, p),
    decreases p, 0int,
{
    match p {
        JsonView::Object(pe) => {
            let e = object_entries(t);
            lemma_entries_fixed(e, pe, pe.len() as int);
            assert(pe.take(pe.len() as int) =~= pe);
        },
        _ => {},
    }
}

} // verus!

verus! {

/// Output format for a base file: `json` when its name ends in `.json`, `yaml` otherwise.
pub open spec fn spec_detect_format(path: Seq<char>) -> Seq<char> {
    if ".json"@.len() <= path.len() && path.skip(path.len() - ".json"@.len()) == ".json"@ {
        "json"@
    } else {
        "yaml"@
    }
}

/// The output format for a base file named `path`.
pub fn detect_format(path: &str) -> (r: String)
    ensures
        r@ == spec_detect_format(path@),
{
    if ends_with(path, ".json") {
        String::from_str("json")
    } else {
        String::from_str("yaml")
    }
}

} // verus!

verus! {

/// Whether every object in the document, at any depth outside arrays, holds each key once.
pub fn is_wf_doc(v: &JsonValue) -> (r: bool)
    ensures
        r == wf_doc(v@),
    decreases v,
{
    match v {
        JsonValue::Object(o) => {
            proof {
                lemma_jentries(o@);
            }
            let ghost es = jentries(o@);
            let mut i: usize = 0;
            while i < o.len()
                invariant
                    i <= o.len(),
                    *v == JsonValue::Object(*o),
                    es == jentries(o@),
                    es.len() == o@.len(),
                    forall|j: int| 0 <= j < o@.len() ==> #[trigger] es[j] == (o@[j].0@, jview(o@[j].1)),
                    forall|j: int| 0 <= j < i ==> wf_doc(#[trigger] es[j].1),
                    forall|a: int, b: int| 0 <= a < i && 0 <= b < i && a != b ==> es[a].0 != es[b].0,
                decreases o.len() - i,
            {
                proof {
                    assert(decreases_to!(*v => (*v)->Object_0));
                    assert(decreases_to!(*o => o@));
                    assert(decreases_to!(o@ => o@[i as int]));
                    assert(decreases_to!(o@[i as int] => o@[i as int].1));
                }
                if !is_wf_doc(&o[i].1) {
                    proof {
                        assert(!wf_doc(es[i as int].1));
                        lemma_wf_entries_iff(es);
                        assert(!wf_entries(es));
                        assert(v@ == JsonView::Object(es));
                    }
                    return false;
                }
                let mut j: usize = 0;
                while j < i
                    invariant
                        j <= i < o.len(),
                        *v == JsonValue::Object(*o),
                        es == jentries(o@),
                        es.len() == o@.len(),
                        forall|m: int| 0 <= m < o@.len() ==> #[trigger] es[m] == (o@[m].0@, jview(o@[m].1)),
                        forall|a: int| 0 <= a < j ==> es[a].0 != es[i as int].0,
                    decreases i - j,
                {
                    if str_eq(o[j].0.as_str(), o[i].0.as_str()) {
                        proof {
                            assert(es[j as int].0 == es[i as int].0);
                            assert(!distinct_keys(es));
                            assert(v@ == JsonView::Object(es));
                        }
                        return false;
                    }
                    j += 1;
                }
                i += 1;
            }
            proof {
                lemma_wf_entries_iff(es);
            }
            true
        },
        _ => true,
    }
}

} // verus!
