//! Character-level text utilities with exact specifications.

use vstd::prelude::*;

verus! {

/// Views of a sequence of strings.
pub open spec fn sviews(v: Seq<String>) -> Seq<Seq<char>> {
    v.map_values(|x: String| x@)
}

/// Appends one character to a string.
/// Trusted wrapper around `String::push`: the result is the old contents followed by `c`.
#[verifier::external_body]
pub(crate) fn push_char(s: &mut String, c: char)
    ensures
        final(s)@ == old(s)@.push(c),
{
    s.push(c);
}

/// The characters of `s`, in order.
pub fn chars_of(s: &str) -> (r: Vec<char>)
    ensures
        r@ == s@,
{
    let n = s.unicode_len();
    let mut r: Vec<char> = Vec::new();
    let mut i: usize = 0;
    while i < n
        invariant
            n == s@.len(),
            i <= n,
            r@ == s@.subrange(0, i as int),
        decreases n - i,
    {
        r.push(s.get_char(i));
        i += 1;
    }
    r
}

/// A string made of the given characters.
pub fn string_of(cs: &Vec<char>) -> (r: String)
    ensures
        r@ == cs@,
{
    let mut r = String::new();
    let mut i: usize = 0;
    while i < cs.len()
        invariant
            i <= cs.len(),
            r@ == cs@.subrange(0, i as int),
        decreases cs.len() - i,
    {
        push_char(&mut r, cs[i]);
        i += 1;
    }
    r
}

/// The ASCII digit character for a value below 16 (lowercase letters above 9).
pub open spec fn digit_char(d: nat) -> char {
    if d < 10 {
        (d + 48) as char
    } else {
        (d + 87) as char
    }
}

/// Decimal notation of `n`, without sign or leading zeros.
pub open spec fn spec_decimal(n: nat) -> Seq<char>
    decreases n,
{
    if n < 10 {
        seq![digit_char(n)]
    } else {
        spec_decimal(n / 10).push(digit_char(n % 10))
    }
}

/// Lowercase hexadecimal notation of `n`, without leading zeros.
pub open spec fn spec_hex(n: nat) -> Seq<char>
    decreases n,
{
    if n < 16 {
        seq![digit_char(n)]
    } else {
        spec_hex(n / 16).push(digit_char(n % 16))
    }
}

/// `n` zero characters.
pub open spec fn zeros(n: nat) -> Seq<char> {
    Seq::new(n, |i: int| '0')
}

/// Lowercase hexadecimal notation of `n`, left-padded with zeros to at least `width` digits.
pub open spec fn spec_hex_padded(n: nat, width: nat) -> Seq<char> {
    let h = spec_hex(n);
    if h.len() < width {
        zeros((width - h.len()) as nat) + h
    } else {
        h
    }
}

fn digit(d: u64) -> (c: char)
    requires
        d < 16,
    ensures
        c == digit_char(d as nat),
{
    if d < 10 {
        ((d as u8) + 48) as char
    } else {
        ((d as u8) + 87) as char
    }
}

/// Digits of `n` in the given base, most significant first.
fn digits_in_base(n: u64, base: u64) -> (r: Vec<char>)
    requires
        base == 10 || base == 16,
    ensures
        base == 10 ==> r@ == spec_decimal(n as nat),
        base == 16 ==> r@ == spec_hex(n as nat),
{
    let mut rev: Vec<char> = Vec::new();
    let mut m = n;
    let ghost mut done: Seq<char> = Seq::empty();
    while m >= base
        invariant
            base == 10 || base == 16,
            rev@.len() == done.len(),
            forall|i: int| 0 <= i < done.len() ==> rev@[i] == done[done.len() - 1 - i],
            base == 10 ==> spec_decimal(n as nat) == spec_decimal(m as nat) + done,
            base == 16 ==> spec_hex(n as nat) == spec_hex(m as nat) + done,
        decreases m,
    {
        let c = digit(m % base);
        rev.push(c);
        proof {
            let d = digit_char((m % base) as nat);
            if base == 10 {
                assert(spec_decimal(m as nat) == spec_decimal((m / base) as nat).push(d));
                assert(spec_decimal((m / base) as nat).push(d) + done
                    =~= spec_decimal((m / base) as nat) + (seq![d] + done));
            } else {
                assert(spec_hex(m as nat) == spec_hex((m / base) as nat).push(d));
                assert(spec_hex((m / base) as nat).push(d) + done
                    =~= spec_hex((m / base) as nat) + (seq![d] + done));
            }
            done = seq![d] + done;
        }
        m = m / base;
    }
    let c = digit(m);
    rev.push(c);
    proof {
        done = seq![c] + done;
    }
    let mut r: Vec<char> = Vec::new();
    let mut k: usize = rev.len();
    while k > 0
        invariant
            k <= rev@.len(),
            rev@.len() == done.len(),
            forall|i: int| 0 <= i < done.len() ==> rev@[i] == done[done.len() - 1 - i],
            r@ == done.subrange(0, (done.len() - k) as int),
        decreases k,
    {
        k -= 1;
        r.push(rev[k]);
        assert(r@ =~= done.subrange(0, (done.len() - k) as int));
    }
    assert(r@ =~= done);
    r
}

/// Decimal text of an unsigned number, as `to_string` renders it.
pub fn decimal(n: u64) -> (r: String)
    ensures
        r@ == spec_decimal(n as nat),
{
    string_of(&digits_in_base(n, 10))
}

/// Lowercase hexadecimal text of `n`, left-padded with zeros to `width` digits (`{:0width$x}`).
pub fn hex_padded(n: u64, width: usize) -> (r: String)
    ensures
        r@ == spec_hex_padded(n as nat, width as nat),
{
    let h = digits_in_base(n, 16);
    let mut r = String::new();
    if h.len() < width {
        let mut i: usize = 0;
        while i < width - h.len()
            invariant
                h.len() < width,
                i <= width - h.len(),
                r@ == zeros(i as nat),
            decreases width - h.len() - i,
        {
            push_char(&mut r, '0');
            i += 1;
            assert(r@ =~= zeros(i as nat));
        }
    }
    let mut j: usize = 0;
    let ghost pre = r@;
    while j < h.len()
        invariant
            j <= h.len(),
            r@ == pre + h@.subrange(0, j as int),
        decreases h.len() - j,
    {
        push_char(&mut r, h[j]);
        j += 1;
        assert(r@ =~= pre + h@.subrange(0, j as int));
    }
    assert(h@.subrange(0, h@.len() as int) =~= h@);
    r
}

} // verus!

verus! {

/// Whether `p` occurs in `s` starting at position `i`.
pub open spec fn occurs_at(s: Seq<char>, i: int, p: Seq<char>) -> bool {
    0 <= i && i + p.len() <= s.len() && s.subrange(i, i + p.len()) == p
}

/// `s` with every non-overlapping occurrence of `p`, scanned left to right, replaced by `w`
/// (what `str::replace` computes for a non-empty pattern).
pub open spec fn spec_replace(s: Seq<char>, p: Seq<char>, w: Seq<char>) -> Seq<char>
    decreases s.len(),
{
    if p.len() == 0 || s.len() < p.len() {
        s
    } else if s.take(p.len() as int) == p {
        w + spec_replace(s.skip(p.len() as int), p, w)
    } else {
        seq![s[0]] + spec_replace(s.skip(1), p, w)
    }
}

/// Whether `p` occurs in `s` at position `i`.
pub fn occurs_at_exec(s: &Vec<char>, i: usize, p: &Vec<char>) -> (r: bool)
    requires
        i <= s.len(),
    ensures
        r == occurs_at(s@, i as int, p@),
{
    if p.len() > s.len() - i {
        return false;
    }
    let mut k: usize = 0;
    while k < p.len()
        invariant
            i + p.len() <= s.len(),
            k <= p.len(),
            forall|j: int| 0 <= j < k ==> s@[i + j] == p@[j],
        decreases p.len() - k,
    {
        if s[i + k] != p[k] {
            assert(s@.subrange(i as int, i + p.len())[k as int] != p@[k as int]);
            return false;
        }
        k += 1;
    }
    assert(s@.subrange(i as int, i + p.len()) =~= p@);
    true
}

/// Replaces every non-overlapping occurrence of `p` in `s` by `w`, left to right.
pub fn replace_all(s: &Vec<char>, p: &Vec<char>, w: &Vec<char>) -> (r: Vec<char>)
    requires
        p.len() > 0,
    ensures
        r@ == spec_replace(s@, p@, w@),
{
    let mut out: Vec<char> = Vec::new();
    let mut i: usize = 0;
    assert(s@.skip(0) =~= s@);
    assert(out@ + spec_replace(s@, p@, w@) =~= spec_replace(s@, p@, w@));
    while i < s.len()
        invariant
            p.len() > 0,
            i <= s.len(),
            out@ + spec_replace(s@.skip(i as int), p@, w@) == spec_replace(s@, p@, w@),
        decreases s.len() - i,
    {
        let ghost rest = s@.skip(i as int);
        if occurs_at_exec(s, i, p) {
            proof {
                assert(rest.take(p.len() as int) =~= s@.subrange(i as int, i + p.len()));
                assert(rest.skip(p.len() as int) =~= s@.skip(i + p.len()));
                assert(out@ + (w@ + spec_replace(rest.skip(p.len() as int), p@, w@))
                    =~= (out@ + w@) + spec_replace(rest.skip(p.len() as int), p@, w@));
            }
            let mut k: usize = 0;
            let ghost out0 = out@;
            while k < w.len()
                invariant
                    k <= w.len(),
                    out@ == out0 + w@.subrange(0, k as int),
                decreases w.len() - k,
            {
                out.push(w[k]);
                k += 1;
                assert(out@ =~= out0 + w@.subrange(0, k as int));
            }
            assert(w@.subrange(0, w@.len() as int) =~= w@);
            i = i + p.len();
        } else {
            proof {
                if rest.len() >= p.len() {
                    assert(rest.take(p.len() as int) =~= s@.subrange(i as int, i + p.len()));
                    assert(rest.skip(1) =~= s@.skip(i + 1));
                    assert(out@ + (seq![rest[0]] + spec_replace(rest.skip(1), p@, w@))
                        =~= out@.push(s@[i as int]) + spec_replace(s@.skip(i + 1), p@, w@));
                } else {
                    assert(spec_replace(rest, p@, w@) == rest);
                    assert(rest =~= seq![s@[i as int]] + s@.skip(i + 1));
                    assert(spec_replace(s@.skip(i + 1), p@, w@) == s@.skip(i + 1));
                    assert(out@ + rest =~= out@.push(s@[i as int]) + s@.skip(i + 1));
                }
            }
            out.push(s[i]);
            i = i + 1;
        }
    }
    proof {
        assert(s@.skip(i as int) =~= Seq::<char>::empty());
        assert(out@ + Seq::<char>::empty() =~= out@);
    }
    out
}

/// Whether two strings hold the same characters.
pub fn str_eq(a: &str, b: &str) -> (r: bool)
    ensures
        r == (a@ == b@),
{
    let x = chars_of(a);
    let y = chars_of(b);
    if x.len() != y.len() {
        return false;
    }
    let mut i: usize = 0;
    while i < x.len()
        invariant
            x@ == a@,
            y@ == b@,
            x@.len() == y@.len(),
            i <= x.len(),
            forall|j: int| 0 <= j < i ==> x@[j] == y@[j],
        decreases x.len() - i,
    {
        if x[i] != y[i] {
            assert(a@[i as int] != b@[i as int]);
            return false;
        }
        i += 1;
    }
    assert(x@ =~= y@);
    true
}

/// Whether `s` begins with `p`.
pub fn starts_with(s: &str, p: &str) -> (r: bool)
    ensures
        r == (p@.len() <= s@.len() && s@.take(p@.len() as int) == p@),
{
    let x = chars_of(s);
    let y = chars_of(p);
    let r = occurs_at_exec(&x, 0, &y);
    proof {
        if p@.len() <= s@.len() {
            assert(s@.take(p@.len() as int) =~= s@.subrange(0, p@.len() as int));
        }
    }
    r
}

/// Whether `s` ends with `p`.
pub fn ends_with(s: &str, p: &str) -> (r: bool)
    ensures
        r == (p@.len() <= s@.len() && s@.skip(s@.len() - p@.len()) == p@),
{
    let x = chars_of(s);
    let y = chars_of(p);
    if y.len() > x.len() {
        return false;
    }
    let r = occurs_at_exec(&x, x.len() - y.len(), &y);
    proof {
        assert(s@.skip(s@.len() - p@.len()) =~= s@.subrange(s@.len() - p@.len(), s@.len() as int));
    }
    r
}

} // verus!

verus! {

/// `a` sorts strictly before `b`, comparing characters by code point (the order of `String`).
pub open spec fn text_lt(a: Seq<char>, b: Seq<char>) -> bool {
    exists|k: int| #[trigger] text_lt_at(a, b, k)
}

/// `a` and `b` agree before position `k`, where `a` ends or has the smaller character.
pub open spec fn text_lt_at(a: Seq<char>, b: Seq<char>, k: int) -> bool {
    &&& 0 <= k <= a.len()
    &&& k <= b.len()
    &&& forall|i: int| 0 <= i < k ==> a[i] == b[i]
    &&& ((k == a.len() && k < b.len()) || (k < a.len() && k < b.len() && (a[k] as u32) < (b[k] as u32)))
}

/// The order is transitive.
pub proof fn lemma_text_lt_transitive(a: Seq<char>, b: Seq<char>, c: Seq<char>)
    requires
        text_lt(a, b),
        text_lt(b, c),
    ensures
        text_lt(a, c),
{
    let k1 = choose|k: int| text_lt_at(a, b, k);
    let k2 = choose|k: int| text_lt_at(b, c, k);
    if k1 < k2 {
        assert(text_lt_at(a, c, k1));
    } else if k2 < k1 {
        assert(text_lt_at(a, c, k2));
    } else {
        assert(text_lt_at(a, c, k1));
    }
}

/// Distinct texts are ordered one way or the other, and never both.
pub proof fn lemma_text_lt_total(a: Seq<char>, b: Seq<char>)
    ensures
        a != b ==> (text_lt(a, b) || text_lt(b, a)),
        !(text_lt(a, b) && text_lt(b, a)),
        !text_lt(a, a),
{
    if text_lt(a, b) && text_lt(b, a) {
        let k1 = choose|k: int| text_lt_at(a, b, k);
        let k2 = choose|k: int| text_lt_at(b, a, k);
        if k1 < k2 {
            assert(a[k1] == b[k1]);
        } else if k2 < k1 {
            assert(b[k2] == a[k2]);
        }
    }
    if text_lt(a, a) {
        let k = choose|k: int| text_lt_at(a, a, k);
    }
    if a != b {
        let n: int = if a.len() < b.len() { a.len() as int } else { b.len() as int };
        if forall|i: int| 0 <= i < n ==> a[i] == b[i] {
            if a.len() < b.len() {
                assert(text_lt_at(a, b, a.len() as int));
            } else if b.len() < a.len() {
                assert(text_lt_at(b, a, b.len() as int));
            } else {
                assert(a =~= b);
            }
        } else {
            let d = first_difference(a, b, n);
            vstd::utf8::char_u32_cast(a[d], a[d] as u32);
            vstd::utf8::char_u32_cast(b[d], b[d] as u32);
            assert((a[d] as u32) != (b[d] as u32));
            if (a[d] as u32) < (b[d] as u32) {
                assert(text_lt_at(a, b, d));
            } else {
                assert(text_lt_at(b, a, d));
            }
        }
    }
}

proof fn first_difference(a: Seq<char>, b: Seq<char>, n: int) -> (d: int)
    requires
        0 <= n <= a.len(),
        n <= b.len(),
        exists|i: int| 0 <= i < n && a[i] != b[i],
    ensures
        0 <= d < n,
        a[d] != b[d],
        forall|i: int| 0 <= i < d ==> a[i] == b[i],
    decreases n,
{
    if exists|i: int| 0 <= i < n - 1 && a[i] != b[i] {
        first_difference(a, b, n - 1)
    } else {
        n - 1
    }
}

/// Whether `a` sorts strictly before `b`.
pub fn text_less(a: &Vec<char>, b: &Vec<char>) -> (r: bool)
    ensures
        r == text_lt(a@, b@),
{
    let mut i: usize = 0;
    while i < a.len() && i < b.len() && a[i] == b[i]
        invariant
            i <= a@.len(),
            i <= b@.len(),
            forall|j: int| 0 <= j < i ==> a@[j] == b@[j],
        decreases a.len() - i,
    {
        i += 1;
    }
    let r = if i == a.len() {
        i < b.len()
    } else if i == b.len() {
        false
    } else {
        (a[i] as u32) < (b[i] as u32)
    };
    proof {
        if r {
            assert(text_lt_at(a@, b@, i as int));
        } else if text_lt(a@, b@) {
            let k = choose|k: int| text_lt_at(a@, b@, k);
            if k < i {
                assert(a@[k] == b@[k]);
            } else if k > i {
                assert(a@[i as int] == b@[i as int]);
            }
        }
    }
    r
}

} // verus!

verus! {

/// Unicode `White_Space` (what `char::is_whitespace` tests).
pub open spec fn is_ws(c: char) -> bool {
    let u = c as u32;
    (0x09 <= u <= 0x0D) || u == 0x20 || u == 0x85 || u == 0xA0 || u == 0x1680 || (0x2000 <= u
        <= 0x200A) || u == 0x2028 || u == 0x2029 || u == 0x202F || u == 0x205F || u == 0x3000
}

/// Whether `c` is white space.
pub fn is_whitespace(c: char) -> (r: bool)
    ensures
        r == is_ws(c),
{
    let u = c as u32;
    (0x09 <= u && u <= 0x0D) || u == 0x20 || u == 0x85 || u == 0xA0 || u == 0x1680 || (0x2000 <= u
        && u <= 0x200A) || u == 0x2028 || u == 0x2029 || u == 0x202F || u == 0x205F || u == 0x3000
}

/// `s` without leading white space.
pub open spec fn trim_start(s: Seq<char>) -> Seq<char>
    decreases s.len(),
{
    if s.len() > 0 && is_ws(s[0]) {
        trim_start(s.drop_first())
    } else {
        s
    }
}

/// `s` without trailing white space.
pub open spec fn trim_end(s: Seq<char>) -> Seq<char>
    decreases s.len(),
{
    if s.len() > 0 && is_ws(s.last()) {
        trim_end(s.drop_last())
    } else {
        s
    }
}

/// `s` without leading or trailing white space (`str::trim`).
pub open spec fn spec_trim(s: Seq<char>) -> Seq<char> {
    trim_end(trim_start(s))
}

/// Removes leading and trailing white space.
pub fn trim_chars(s: &Vec<char>) -> (r: Vec<char>)
    ensures
        r@ == spec_trim(s@),
{
    let mut a: usize = 0;
    assert(s@.skip(0) =~= s@);
    while a < s.len() && is_whitespace(s[a])
        invariant
            a <= s@.len(),
            trim_start(s@) == trim_start(s@.skip(a as int)),
        decreases s.len() - a,
    {
        assert(s@.skip(a as int).drop_first() =~= s@.skip(a + 1));
        a += 1;
    }
    let ghost t = s@.skip(a as int);
    assert(trim_start(t) == t);
    let mut b: usize = s.len();
    assert(t.take((b - a) as int) =~= t);
    while b > a && is_whitespace(s[b - 1])
        invariant
            a <= b <= s@.len(),
            t == s@.skip(a as int),
            trim_end(t) == trim_end(t.take((b - a) as int)),
        decreases b,
    {
        assert(t.take((b - a) as int).drop_last() =~= t.take((b - 1 - a) as int));
        b -= 1;
    }
    let mut r: Vec<char> = Vec::new();
    let mut k: usize = a;
    while k < b
        invariant
            a <= k <= b <= s@.len(),
            r@ == s@.subrange(a as int, k as int),
        decreases b - k,
    {
        r.push(s[k]);
        k += 1;
        assert(r@ =~= s@.subrange(a as int, k as int));
    }
    assert(t.take((b - a) as int) =~= s@.subrange(a as int, b as int));
    r
}

/// `str::trim` on a string.
pub fn trim(s: &str) -> (r: String)
    ensures
        r@ == spec_trim(s@),
{
    string_of(&trim_chars(&chars_of(s)))
}

/// `s` without any leading `c` characters.
pub open spec fn strip_all_leading(s: Seq<char>, c: char) -> Seq<char>
    decreases s.len(),
{
    if s.len() > 0 && s[0] == c {
        strip_all_leading(s.drop_first(), c)
    } else {
        s
    }
}

/// Removes every leading `c` (`str::trim_start_matches` with one character).
pub fn strip_leading(s: &Vec<char>, c: char) -> (r: Vec<char>)
    ensures
        r@ == strip_all_leading(s@, c),
{
    let mut a: usize = 0;
    assert(s@.skip(0) =~= s@);
    while a < s.len() && s[a] == c
        invariant
            a <= s@.len(),
            strip_all_leading(s@, c) == strip_all_leading(s@.skip(a as int), c),
        decreases s.len() - a,
    {
        assert(s@.skip(a as int).drop_first() =~= s@.skip(a + 1));
        a += 1;
    }
    slice_from(s, a)
}

/// The characters of `s` from position `a` on.
pub fn slice_from(s: &Vec<char>, a: usize) -> (r: Vec<char>)
    requires
        a <= s@.len(),
    ensures
        r@ == s@.skip(a as int),
{
    slice(s, a, s.len())
}

/// The characters of `s` in `[a, b)`.
pub fn slice(s: &Vec<char>, a: usize, b: usize) -> (r: Vec<char>)
    requires
        a <= b <= s@.len(),
    ensures
        r@ == s@.subrange(a as int, b as int),
{
    let mut r: Vec<char> = Vec::new();
    let mut k: usize = a;
    while k < b
        invariant
            a <= k <= b <= s@.len(),
            r@ == s@.subrange(a as int, k as int),
        decreases b - k,
    {
        r.push(s[k]);
        k += 1;
        assert(r@ =~= s@.subrange(a as int, k as int));
    }
    r
}

/// Position of the first `c` in `s`.
pub open spec fn first_index_of(s: Seq<char>, c: char) -> Option<int> {
    if exists|i: int| 0 <= i < s.len() && s[i] == c {
        Some(choose|i: int| 0 <= i < s.len() && s[i] == c && forall|j: int| 0 <= j < i ==> s[j] != c)
    } else {
        None
    }
}

/// The first position of `c` in `s`.
pub fn find_char(s: &Vec<char>, c: char) -> (r: Option<usize>)
    ensures
        match r {
            Some(i) => i < s@.len() && s@[i as int] == c && forall|j: int| 0 <= j < i ==> s@[j] != c,
            None => forall|j: int| 0 <= j < s@.len() ==> s@[j] != c,
        },
        r matches Some(i) ==> first_index_of(s@, c) == Some(i as int),
        r is None ==> first_index_of(s@, c) is None,
{
    let mut i: usize = 0;
    while i < s.len()
        invariant
            i <= s@.len(),
            forall|j: int| 0 <= j < i ==> s@[j] != c,
        decreases s.len() - i,
    {
        if s[i] == c {
            proof {
                let k = choose|k: int| 0 <= k < s@.len() && s@[k] == c && forall|j: int| 0 <= j < k ==> s@[j] != c;
                if k < i {
                } else if k > i {
                    assert(s@[i as int] != c);
                }
            }
            return Some(i);
        }
        i += 1;
    }
    None
}

/// `str::split_once` with a character separator.
pub open spec fn spec_split_once(s: Seq<char>, c: char) -> Option<(Seq<char>, Seq<char>)> {
    match first_index_of(s, c) {
        Some(k) => Some((s.take(k), s.skip(k + 1))),
        None => None,
    }
}

/// Splits at the first `c`.
pub fn split_once(s: &Vec<char>, c: char) -> (r: Option<(Vec<char>, Vec<char>)>)
    ensures
        match r {
            Some(p) => spec_split_once(s@, c) == Some((p.0@, p.1@)),
            None => spec_split_once(s@, c) is None,
        },
{
    match find_char(s, c) {
        Some(k) => {
            let n = s.len();
            assert(k < n);
            let a = slice(s, 0, k);
            let b = slice_from(s, k + 1);
            assert(a@ =~= s@.take(k as int));
            Some((a, b))
        },
        None => None,
    }
}

/// The characters `'0'` to `'9'`.
pub open spec fn is_digit(c: char) -> bool {
    '0' <= c <= '9'
}

/// The number written by a string of decimal digits.
pub open spec fn digits_value(s: Seq<char>) -> nat
    decreases s.len(),
{
    if s.len() == 0 {
        0
    } else {
        digits_value(s.drop_last()) * 10 + ((s.last() as u32 - 48) as nat)
    }
}

/// What an unsigned `FromStr` reads: an optional `+`, then one or more ASCII digits.
pub open spec fn spec_parse_nat(s: Seq<char>) -> Option<nat> {
    if unsigned_digits(s).len() > 0 && all_digits(unsigned_digits(s)) {
        Some(digits_value(unsigned_digits(s)))
    } else {
        None
    }
}

/// The characters after an optional leading `+`.
pub open spec fn unsigned_digits(s: Seq<char>) -> Seq<char> {
    if s.len() > 0 && s[0] == '+' {
        s.drop_first()
    } else {
        s
    }
}

/// Every character is a decimal digit.
pub open spec fn all_digits(d: Seq<char>) -> bool {
    forall|i: int| 0 <= i < d.len() ==> is_digit(#[trigger] d[i])
}

/// The value an unsigned type with maximum `max` parses from `s`, if any.
pub open spec fn spec_parse_bounded(s: Seq<char>, max: nat) -> Option<nat> {
    if spec_parse_nat(s) is Some && spec_parse_nat(s)->0 <= max {
        spec_parse_nat(s)
    } else {
        None
    }
}

proof fn lemma_digits_value_grows(d: Seq<char>, i: int)
    requires
        0 <= i <= d.len(),
        forall|k: int| 0 <= k < d.len() ==> is_digit(d[k]),
    ensures
        digits_value(d) >= digits_value(d.take(i)),
    decreases d.len() - i,
{
    if i < d.len() {
        lemma_digits_value_grows(d, i + 1);
        assert(d.take(i + 1).drop_last() =~= d.take(i));
    } else {
        assert(d.take(i) =~= d);
    }
}

/// Parses an unsigned decimal number no larger than `max`, as `u16`/`u32`/`u64::from_str` do.
pub fn parse_unsigned(s: &Vec<char>, max: u64) -> (r: Option<u64>)
    ensures
        match r {
            Some(v) => spec_parse_bounded(s@, max as nat) == Some(v as nat),
            None => spec_parse_bounded(s@, max as nat) is None,
        },
{
    let start: usize = if s.len() > 0 && s[0] == '+' { 1 } else { 0 };
    let ghost d = unsigned_digits(s@);
    assert(d =~= s@.skip(start as int));
    if start >= s.len() {
        return None;
    }
    let mut v: u64 = 0;
    let mut i: usize = start;
    while i < s.len()
        invariant
            start <= i <= s@.len(),
            d == s@.skip(start as int),
            d == unsigned_digits(s@),
            forall|k: int| 0 <= k < i - start ==> is_digit(d[k]),
            v as nat == digits_value(d.take(i - start)),
            v <= max,
        decreases s.len() - i,
    {
        let c = s[i];
        if !('0' <= c && c <= '9') {
            assert(d[i - start] == c);
            assert(!is_digit(d[i - start]));
            assert(!all_digits(d));
            return None;
        }
        let dig = (c as u32 - 48) as u64;
        assert(d.take(i + 1 - start).drop_last() =~= d.take(i - start));
        if dig > max || v > (max - dig) / 10 {
            proof {
                // this prefix already exceeds `max`; a longer run of digits only grows
                if dig <= max {
                    assert(v * 10 + dig > max) by (nonlinear_arith)
                        requires
                            v > (max - dig) / 10,
                            dig <= max,
                    ;
                }
                if all_digits(d) {
                    lemma_digits_value_grows(d, i + 1 - start);
                    assert(digits_value(d.take(i + 1 - start)) == v * 10 + dig);
                    assert(spec_parse_nat(s@) == Some(digits_value(d)));
                }
            }
            return None;
        }
        assert(v * 10 + dig <= max) by (nonlinear_arith)
            requires
                v <= (max - dig) / 10,
                dig <= max,
        ;
        v = v * 10 + dig;
        i += 1;
    }
    assert(d.take(i - start) =~= d);
    Some(v)
}

} // verus!

verus! {

/// A line without the carriage return of a `\r\n` ending.
pub open spec fn strip_cr(l: Seq<char>) -> Seq<char> {
    if l.len() > 0 && l.last() == '\r' {
        l.drop_last()
    } else {
        l
    }
}

/// The lines of `s` after the partial line `cur`, as `str::lines` splits them.
pub open spec fn lines_from(s: Seq<char>, cur: Seq<char>) -> Seq<Seq<char>>
    decreases s.len(),
{
    if s.len() == 0 {
        if cur.len() == 0 {
            Seq::empty()
        } else {
            seq![cur]
        }
    } else if s[0] == '\n' {
        seq![strip_cr(cur)] + lines_from(s.drop_first(), Seq::empty())
    } else {
        lines_from(s.drop_first(), cur.push(s[0]))
    }
}

/// The lines of `s` (`str::lines`): split at `\n`, a `\r` before it dropped, no empty last line.
pub open spec fn spec_lines(s: Seq<char>) -> Seq<Seq<char>> {
    lines_from(s, Seq::empty())
}

/// Views of a sequence of character vectors.
pub open spec fn cviews(v: Seq<Vec<char>>) -> Seq<Seq<char>> {
    v.map_values(|x: Vec<char>| x@)
}

/// Splits text into lines as `str::lines` does.
pub fn lines(s: &Vec<char>) -> (r: Vec<Vec<char>>)
    ensures
        cviews(r@) == spec_lines(s@),
{
    let mut r: Vec<Vec<char>> = Vec::new();
    let mut cur: Vec<char> = Vec::new();
    let mut i: usize = 0;
    assert(s@.skip(0) =~= s@);
    assert(cviews(r@) + lines_from(s@, cur@) =~= spec_lines(s@));
    while i < s.len()
        invariant
            i <= s@.len(),
            cviews(r@) + lines_from(s@.skip(i as int), cur@) == spec_lines(s@),
        decreases s.len() - i,
    {
        let ghost rest = s@.skip(i as int);
        assert(rest.drop_first() =~= s@.skip(i + 1));
        let c = s[i];
        if c == '\n' {
            let mut line = cur;
            if line.len() > 0 && line[line.len() - 1] == '\r' {
                line.pop();
            }
            let ghost r0 = r@;
            assert(line@ == strip_cr(cur@));
            r.push(line);
            assert(cviews(r@) =~= cviews(r0).push(line@));
            assert(cviews(r0) + (seq![line@] + lines_from(s@.skip(i + 1), Seq::empty()))
                =~= cviews(r@) + lines_from(s@.skip(i + 1), Seq::empty()));
            cur = Vec::new();
            assert(cur@ =~= Seq::<char>::empty());
        } else {
            cur.push(c);
        }
        i += 1;
    }
    assert(s@.skip(i as int) =~= Seq::<char>::empty());
    if cur.len() > 0 {
        let ghost r0 = r@;
        let last = cur;
        r.push(last);
        assert(cviews(r@) =~= cviews(r0).push(last@));
        assert(cviews(r0) + seq![last@] =~= cviews(r@));
    } else {
        assert(cviews(r@) + Seq::<Seq<char>>::empty() =~= cviews(r@));
    }
    r
}

/// A configuration line that carries something: not blank once trimmed, and not a `#` comment.
pub open spec fn is_meaningful(l: Seq<char>) -> bool {
    spec_trim(l).len() > 0 && spec_trim(l)[0] != '#'
}

/// The value of a lowercase hexadecimal digit character.
pub open spec fn hex_digit_value(c: char) -> nat {
    if c as u32 <= 57 {
        (c as u32 - 48) as nat
    } else {
        (c as u32 - 87) as nat
    }
}

/// The value of a sequence of lowercase hexadecimal digits, most significant first.
pub open spec fn hex_value(s: Seq<char>) -> nat
    decreases s.len(),
{
    if s.len() == 0 {
        0
    } else {
        hex_value(s.drop_last()) * 16 + hex_digit_value(s.last())
    }
}

proof fn lemma_digit_value(d: nat)
    requires
        d < 16,
    ensures
        hex_digit_value(digit_char(d)) == d,
{
    if d < 10 {
        assert(((d + 48) as char) as u32 == d + 48);
    } else {
        assert(((d + 87) as char) as u32 == d + 87);
    }
}

proof fn lemma_hex_value_of_hex(n: nat)
    ensures
        hex_value(spec_hex(n)) == n,
    decreases n,
{
    lemma_digit_value(n % 16);
    let h = spec_hex(n);
    if n >= 16 {
        lemma_hex_value_of_hex(n / 16);
        assert(h.drop_last() =~= spec_hex(n / 16));
        assert(h.last() == digit_char(n % 16));
        assert(hex_value(h) == hex_value(spec_hex(n / 16)) * 16 + n % 16);
        assert((n / 16) * 16 + n % 16 == n);
    } else {
        assert(h.drop_last() =~= Seq::<char>::empty());
        assert(h.last() == digit_char(n));
        assert(hex_value(h) == hex_value(Seq::<char>::empty()) * 16 + n % 16);
    }
}

proof fn lemma_hex_value_zeros_prefix(k: nat, h: Seq<char>)
    ensures
        hex_value(zeros(k) + h) == hex_value(h),
    decreases h.len(), k,
{
    if h.len() > 0 {
        lemma_hex_value_zeros_prefix(k, h.drop_last());
        assert((zeros(k) + h).drop_last() =~= zeros(k) + h.drop_last());
    } else if k > 0 {
        lemma_hex_value_zeros_prefix((k - 1) as nat, h);
        assert((zeros(k) + h).drop_last() =~= zeros((k - 1) as nat) + h);
        assert((zeros(k) + h).last() == '0');
    } else {
        assert(zeros(k) + h =~= Seq::<char>::empty());
    }
}

/// Padded hexadecimal notation reads back as the number it was written from.
pub proof fn lemma_hex_padded_value(n: nat, width: nat)
    ensures
        hex_value(spec_hex_padded(n, width)) == n,
{
    lemma_hex_value_of_hex(n);
    let h = spec_hex(n);
    if h.len() < width {
        lemma_hex_value_zeros_prefix((width - h.len()) as nat, h);
    }
}

} // verus!

verus! {

/// Text that neither starts nor ends with white space is its own trim.
pub proof fn lemma_trim_unchanged(s: Seq<char>)
    requires
        s.len() > 0,
        !is_ws(s[0]),
        !is_ws(s.last()),
    ensures
        spec_trim(s) == s,
{
    assert(trim_start(s) == s);
    assert(trim_end(s) == s);
}

/// Splitting `a`, `c`, `b` at the first `c`, where `a` holds no `c`, gives `a` and `b`.
pub proof fn lemma_split_once_at(a: Seq<char>, c: char, b: Seq<char>)
    requires
        forall|i: int| 0 <= i < a.len() ==> a[i] != c,
    ensures
        spec_split_once(a + seq![c] + b, c) == Some((a, b)),
{
    let s = a + seq![c] + b;
    assert(s[a.len() as int] == c);
    let k = choose|k: int| 0 <= k < s.len() && s[k] == c && forall|j: int| 0 <= j < k ==> s[j] != c;
    if k < a.len() {
        assert(s[k] == a[k]);
    } else if k > a.len() {
        assert(s[a.len() as int] != c);
    }
    assert(first_index_of(s, c) == Some(a.len() as int));
    assert(s.take(a.len() as int) =~= a);
    assert(s.skip(a.len() as int + 1) =~= b);
}

/// Text without `c` does not split at `c`.
pub proof fn lemma_split_once_none(a: Seq<char>, c: char)
    requires
        forall|i: int| 0 <= i < a.len() ==> a[i] != c,
    ensures
        spec_split_once(a, c) is None,
{
}

} // verus!
