//! The spellings a class or member has on the JVM, and what they say.
//!
//! `f$default$2` is a default getter, `Foo$mcJ$sp` a `@specialized` variant,
//! `a/b/Outer$Inner` a nested class. These rules read names only; no symbol
//! table is consulted.
use vstd::prelude::*;
use vstd::string::*;

use crate::text::{chars_eq, replace_char, chars_of, ends_with, last_match_from, occurs_at, rfind, rfind_char, rfind_char_exec, rfind_exec, trim_end, trim_end_len};

verus! {

pub open spec fn default_marker() -> Seq<char> {
    seq!['$', 'd', 'e', 'f', 'a', 'u', 'l', 't', '$']
}

pub open spec fn is_digit(c: char) -> bool {
    '0' <= c && c <= '9'
}

pub open spec fn all_digits(s: Seq<char>) -> bool {
    forall|j: int| 0 <= j < s.len() ==> #[trigger] is_digit(s[j])
}

/// `name` is `<method>$default$<n>` with `n` a non-empty run of ASCII digits,
/// read at the last `$default$`.
pub open spec fn spec_is_default_getter(name: Seq<char>) -> bool {
    match rfind(name, default_marker()) {
        None => false,
        Some(k) => {
            let n = name.subrange(k + default_marker().len(), name.len() as int);
            n.len() > 0 && all_digits(n)
        },
    }
}

/// `f$default$2` names the getter for `f`'s second parameter's default.
#[verifier::loop_isolation(false)]
pub fn is_default_getter(name: &str) -> (r: bool)
    ensures
        r == spec_is_default_getter(name@),
{
    let s = chars_of(name);
    let marker = vec!['$', 'd', 'e', 'f', 'a', 'u', 'l', 't', '$'];
    assert(marker@ =~= default_marker());
    let k = match rfind_exec(&s, &marker) {
        None => {
            return false;
        },
        Some(k) => k,
    };
    let start = k + 9;
    if start >= s.len() {
        return false;
    }
    let mut j = start;
    while j < s.len()
        invariant
            start <= j <= s.len(),
            forall|t: int| start <= t < j ==> is_digit(#[trigger] s@[t]),
        decreases s.len() - j,
    {
        if !(s[j] >= '0' && s[j] <= '9') {
            assert(!is_digit(s@.subrange(start as int, s@.len() as int)[j - start]));
            return false;
        }
        j += 1;
    }
    assert(all_digits(s@.subrange(start as int, s@.len() as int)));
    true
}

pub open spec fn specialization_suffix() -> Seq<char> {
    seq!['$', 's', 'p']
}

pub open spec fn specialization_marker() -> Seq<char> {
    seq!['$', 'm', 'c']
}

/// One of the specialization tags `Z B C D F I J S V`.
pub open spec fn is_spec_tag(c: char) -> bool {
    c == 'Z' || c == 'B' || c == 'C' || c == 'D' || c == 'F' || c == 'I' || c == 'J' || c == 'S'
        || c == 'V'
}

/// The unspecialized name `s` was generated from, if `s` is
/// `<base>$mc<tags>$sp` with one or more tags (the last `$mc` is the one read).
pub open spec fn spec_despecialized(s: Seq<char>) -> Option<Seq<char>> {
    if !ends_with(s, specialization_suffix()) {
        None
    } else {
        let rest = s.subrange(0, s.len() - 3);
        match rfind(rest, specialization_marker()) {
            None => None,
            Some(at) => {
                let tags = rest.subrange(at + 3, rest.len() as int);
                if tags.len() > 0 && forall|j: int| 0 <= j < tags.len() ==> #[trigger] is_spec_tag(tags[j]) {
                    Some(rest.subrange(0, at))
                } else {
                    None
                }
            },
        }
    }
}

/// Where `last_match_from` stops, `pat` occurs.
proof fn lemma_last_match_occurs(s: Seq<char>, pat: Seq<char>, top: int)
    ensures
        last_match_from(s, pat, top) matches Some(k) ==> occurs_at(s, pat, k),
    decreases top + 1,
{
    if top >= 0 && !occurs_at(s, pat, top) {
        lemma_last_match_occurs(s, pat, top - 1);
    }
}

proof fn lemma_rfind_occurs(s: Seq<char>, pat: Seq<char>)
    ensures
        rfind(s, pat) matches Some(k) ==> occurs_at(s, pat, k),
{
    lemma_last_match_occurs(s, pat, s.len() - pat.len());
}

/// The last occurrence of `pat` at or below `top` is at `k` when `pat`
/// occurs at `k` and nowhere after it up to `top`.
proof fn lemma_last_match_at(s: Seq<char>, pat: Seq<char>, k: int, top: int)
    requires
        0 <= k <= top,
        occurs_at(s, pat, k),
        forall|i: int| k < i <= top ==> !#[trigger] occurs_at(s, pat, i),
    ensures
        last_match_from(s, pat, top) == Some(k),
    decreases top - k,
{
    if top > k {
        lemma_last_match_at(s, pat, k, top - 1);
    }
}

/// A default getter is recognised exactly when the text after the last
/// `$default$` is non-empty and made of the ASCII digits `0` to `9` only.
pub proof fn lemma_default_getter_digits(name: Seq<char>)
    ensures
        spec_is_default_getter(name) <==> (rfind(name, default_marker()) is Some && {
            let k = rfind(name, default_marker())->0;
            &&& k + 9 < name.len()
            &&& forall|j: int| k + 9 <= j < name.len() ==> '0' <= #[trigger] name[j] && name[j] <= '9'
        }),
{
    lemma_rfind_occurs(name, default_marker());
    if let Some(k) = rfind(name, default_marker()) {
        let n = name.subrange(k + default_marker().len(), name.len() as int);
        if n.len() > 0 && all_digits(n) {
            assert forall|j: int| k + 9 <= j < name.len() implies '0' <= #[trigger] name[j] && name[j] <= '9' by {
                assert(name[j] == n[j - k - 9]);
                assert(is_digit(n[j - k - 9]));
            }
        }
        if k + 9 < name.len() && forall|j: int| k + 9 <= j < name.len() ==> '0' <= #[trigger] name[j] && name[j] <= '9' {
            assert forall|j: int| 0 <= j < n.len() implies #[trigger] is_digit(n[j]) by {
                assert(n[j] == name[j + k + 9]);
            }
        }
    }
}

/// Any method name, `$default$`, then one or more ASCII digits (`0`
/// included) names a default getter.
pub proof fn lemma_default_getter_of(method: Seq<char>, digits: Seq<char>)
    requires
        digits.len() > 0,
        forall|j: int| 0 <= j < digits.len() ==> '0' <= #[trigger] digits[j] && digits[j] <= '9',
    ensures
        spec_is_default_getter(method + default_marker() + digits),
{
    let m = default_marker();
    let s = method + m + digits;
    let k = method.len() as int;
    assert(s.subrange(k, k + 9) =~= m);
    assert forall|i: int| k < i <= s.len() - 9 implies !#[trigger] occurs_at(s, m, i) by {
        if occurs_at(s, m, i) {
            assert(s.subrange(i, i + 9)[0] == s[i]);
            assert(s.subrange(i, i + 9)[1] == s[i + 1]);
            assert(s[i] == '$' && s[i + 1] == 'd');
            if i < k + 8 {
                assert(s[i] == m[i - k]);
            } else if i == k + 8 {
                assert(s[i + 1] == digits[0]);
            } else {
                assert(s[i] == digits[i - k - 9]);
            }
        }
    }
    lemma_last_match_at(s, m, k, s.len() - 9);
    assert(s.subrange(k + 9, s.len() as int) =~= digits);
}

/// What a specialized variant's name is made of: the base, `$mc`, one or
/// more of the tags `Z B C D F I J S V`, then `$sp`.
pub proof fn lemma_despecialized_shape(s: Seq<char>)
    ensures
        spec_despecialized(s) matches Some(b) ==> exists|t: Seq<char>| {
            &&& t.len() > 0
            &&& forall|j: int| 0 <= j < t.len() ==> {
                let c = #[trigger] t[j];
                c == 'Z' || c == 'B' || c == 'C' || c == 'D' || c == 'F' || c == 'I' || c == 'J' || c == 'S' || c == 'V'
            }
            &&& s == b + specialization_marker() + t + specialization_suffix()
        },
{
    if let Some(b) = spec_despecialized(s) {
        let rest = s.subrange(0, s.len() - 3);
        let at = rfind(rest, specialization_marker())->0;
        lemma_rfind_occurs(rest, specialization_marker());
        let t = rest.subrange(at + 3, rest.len() as int);
        assert(rest.subrange(at, at + 3) == specialization_marker());
        assert(s =~= b + specialization_marker() + t + specialization_suffix());
        assert forall|j: int| 0 <= j < t.len() implies {
            let c = #[trigger] t[j];
            c == 'Z' || c == 'B' || c == 'C' || c == 'D' || c == 'F' || c == 'I' || c == 'J' || c == 'S' || c == 'V'
        } by {
            assert(is_spec_tag(t[j]));
        }
    }
}

/// Every base, `$mc`, a non-empty run of the tags `Z B C D F I J S V` and
/// `$sp` gives the base back.
pub proof fn lemma_despecialized_of(base: Seq<char>, tags: Seq<char>)
    requires
        tags.len() > 0,
        forall|j: int| 0 <= j < tags.len() ==> {
            let c = #[trigger] tags[j];
            c == 'Z' || c == 'B' || c == 'C' || c == 'D' || c == 'F' || c == 'I' || c == 'J' || c == 'S' || c == 'V'
        },
    ensures
        spec_despecialized(base + specialization_marker() + tags + specialization_suffix()) == Some(base),
{
    let mc = specialization_marker();
    let s = base + mc + tags + specialization_suffix();
    let rest = s.subrange(0, s.len() - 3);
    assert(rest =~= base + mc + tags);
    assert(s.subrange(s.len() - 3, s.len() as int) =~= specialization_suffix());
    let k = base.len() as int;
    assert(rest.subrange(k, k + 3) =~= mc);
    assert forall|i: int| k < i <= rest.len() - 3 implies !#[trigger] occurs_at(rest, mc, i) by {
        if occurs_at(rest, mc, i) {
            assert(rest.subrange(i, i + 3)[0] == rest[i]);
            assert(rest[i] == '$');
            if i < k + 3 {
                assert(rest[i] == mc[i - k]);
            } else {
                assert(rest[i] == tags[i - k - 3]);
            }
        }
    }
    lemma_last_match_at(rest, mc, k, rest.len() - 3);
    assert(rest.subrange(k + 3, rest.len() as int) =~= tags);
    assert forall|j: int| 0 <= j < tags.len() implies #[trigger] is_spec_tag(tags[j]) by {
    }
    assert(rest.subrange(0, k) =~= base);
}

fn is_spec_tag_exec(c: char) -> (r: bool)
    ensures
        r == is_spec_tag(c),
{
    c == 'Z' || c == 'B' || c == 'C' || c == 'D' || c == 'F' || c == 'I' || c == 'J' || c == 'S'
        || c == 'V'
}

/// The unspecialized class a `@specialized` variant was generated from.
///
/// The suffix is `$mc` followed by one specialization tag per type parameter
/// (`Z B C D F I J S V`, the JVM primitive letters plus `V`) and then `$sp`.
#[verifier::loop_isolation(false)]
pub fn despecialized(jvm_name: &str) -> (r: Option<&str>)
    ensures
        r is Some <==> spec_despecialized(jvm_name@) is Some,
        r matches Some(base) ==> base@ == spec_despecialized(jvm_name@)->0,
{
    let s = chars_of(jvm_name);
    let n = s.len();
    if n < 3 || s[n - 3] != '$' || s[n - 2] != 's' || s[n - 1] != 'p' {
        proof {
            if n >= 3 {
                let suf = s@.subrange(n - 3, n as int);
                if suf == specialization_suffix() {
                    assert(suf[0] == '$' && suf[1] == 's' && suf[2] == 'p');
                }
            }
        }
        return None;
    }
    assert(s@.subrange(n - 3, n as int) =~= specialization_suffix());
    let mut rest: Vec<char> = Vec::new();
    let mut i: usize = 0;
    while i < n - 3
        invariant
            n == s.len(),
            n >= 3,
            i <= n - 3,
            rest@ == s@.subrange(0, i as int),
        decreases n - 3 - i,
    {
        rest.push(s[i]);
        i += 1;
    }
    let marker = vec!['$', 'm', 'c'];
    assert(marker@ =~= specialization_marker());
    let at = match rfind_exec(&rest, &marker) {
        None => {
            return None;
        },
        Some(at) => at,
    };
    let ghost tags = rest@.subrange(at + 3, rest@.len() as int);
    if at + 3 >= rest.len() {
        return None;
    }
    let mut j = at + 3;
    while j < rest.len()
        invariant
            at + 3 <= j <= rest.len(),
            tags == rest@.subrange(at + 3, rest@.len() as int),
            forall|t: int| 0 <= t < j - (at + 3) ==> #[trigger] is_spec_tag(tags[t]),
        decreases rest.len() - j,
    {
        if !is_spec_tag_exec(rest[j]) {
            assert(!is_spec_tag(tags[j - (at + 3)]));
            return None;
        }
        j += 1;
    }
    Some(jvm_name.substring_char(0, at))
}

/// The simple name of a JVM internal name: what follows the last `/`.
pub open spec fn simple_jvm_name(internal: Seq<char>) -> Seq<char> {
    match rfind_char(internal, '/') {
        None => internal,
        Some(k) => internal.subrange(k + 1, internal.len() as int),
    }
}

/// Whether a JVM internal name names a class nested inside another class:
/// its simple name, trailing `$` dropped, still holds a `$`.
pub open spec fn spec_is_nested_jvm_name(internal: Seq<char>) -> bool {
    trim_end(simple_jvm_name(internal), '$').contains('$')
}

pub proof fn lemma_rfind_char_bound(s: Seq<char>, c: char)
    ensures
        rfind_char(s, c) matches Some(k) ==> 0 <= k < s.len() && s[k] == c,
    decreases s.len(),
{
    if s.len() > 0 && s.last() != c {
        lemma_rfind_char_bound(s.drop_last(), c);
    }
}

/// Whether a JVM internal name names a class nested inside another class.
///
/// `scala/collection/Iterator$GroupedIterator` yes; `scala/collection/Iterator`
/// and the module class `scala/Predef$` no.
#[verifier::loop_isolation(false)]
pub fn is_nested_jvm_name(internal: &str) -> (r: bool)
    ensures
        r == spec_is_nested_jvm_name(internal@),
{
    let s = chars_of(internal);
    proof {
        lemma_rfind_char_bound(s@, '/');
    }
    let start = match rfind_char_exec(&s, '/') {
        None => 0,
        Some(k) => k + 1,
    };
    let mut simple: Vec<char> = Vec::new();
    let mut i = start;
    while i < s.len()
        invariant
            start <= i <= s.len(),
            simple@ == s@.subrange(start as int, i as int),
        decreases s.len() - i,
    {
        simple.push(s[i]);
        i += 1;
    }
    assert(simple@ == simple_jvm_name(s@)) by {
        if start == 0 {
            assert(s@.subrange(0, s@.len() as int) =~= s@);
        }
    }
    let n = trim_end_len(&simple, '$');
    let mut j: usize = 0;
    while j < n
        invariant
            n <= simple.len(),
            j <= n,
            forall|t: int| 0 <= t < j ==> simple@[t] != '$',
        decreases n - j,
    {
        if simple[j] == '$' {
            assert(simple@.subrange(0, n as int)[j as int] == '$');
            return true;
        }
        j += 1;
    }
    assert(!simple@.subrange(0, n as int).contains('$')) by {
        if simple@.subrange(0, n as int).contains('$') {
            let t = choose|t: int| 0 <= t < n && simple@.subrange(0, n as int)[t] == '$';
            assert(simple@[t] == '$');
        }
    }
    false
}

/// First index in `[i, end)` holding `c`, or `end`.
pub open spec fn find_char_from(s: Seq<char>, c: char, i: int, end: int) -> int
    decreases end - i,
{
    if i < end && s[i] != c {
        find_char_from(s, c, i + 1, end)
    } else {
        i
    }
}

pub proof fn lemma_find_char_from(s: Seq<char>, c: char, i: int, end: int)
    requires
        i <= end,
    ensures
        i <= find_char_from(s, c, i, end) <= end,
        find_char_from(s, c, i, end) < end ==> s[find_char_from(s, c, i, end)] == c,
        forall|t: int| i <= t < find_char_from(s, c, i, end) ==> s[t] != c,
    decreases end - i,
{
    if i < end && s[i] != c {
        lemma_find_char_from(s, c, i + 1, end);
    }
}

/// The spans `str::split(c)` cuts `s[start..end]` into.
pub open spec fn split_spans(s: Seq<char>, c: char, start: int, end: int) -> Seq<(int, int)>
    decreases end - start,
{
    if start > end {
        Seq::empty()
    } else {
        let k = find_char_from(s, c, start, end);
        if k >= end {
            seq![(start, end)]
        } else {
            proof {
                lemma_find_char_from(s, c, start, end);
            }
            seq![(start, k)] + split_spans(s, c, k + 1, end)
        }
    }
}

pub open spec fn span_view(s: Seq<char>, sp: (int, int)) -> Seq<char> {
    s.subrange(sp.0, sp.1)
}

/// The spans whose text is not empty, in order.
pub open spec fn nonempty_spans(sps: Seq<(int, int)>) -> Seq<(int, int)>
    decreases sps.len(),
{
    if sps.len() == 0 {
        Seq::empty()
    } else if sps[0].0 < sps[0].1 {
        seq![sps[0]] + nonempty_spans(sps.drop_first())
    } else {
        nonempty_spans(sps.drop_first())
    }
}

/// Index of the last span whose text is `x`.
pub open spec fn last_span_equal(s: Seq<char>, sps: Seq<(int, int)>, x: Seq<char>) -> Option<int>
    decreases sps.len(),
{
    if sps.len() == 0 {
        None
    } else if span_view(s, sps.last()) == x {
        Some(sps.len() - 1)
    } else {
        last_span_equal(s, sps.drop_last(), x)
    }
}

/// `parts` joined with `sep` between neighbours.
pub open spec fn join(parts: Seq<Seq<char>>, sep: char) -> Seq<char>
    decreases parts.len(),
{
    if parts.len() == 0 {
        Seq::empty()
    } else if parts.len() == 1 {
        parts[0]
    } else {
        join(parts.drop_last(), sep).push(sep) + parts.last()
    }
}

/// The source spelling of a singleton reference whose last segment is a
/// binary nested name (`ColumnOption.ColumnOption$PrimaryKey` read as
/// `ColumnOption.PrimaryKey`), when there is one.
pub open spec fn spec_singleton_source(s: Seq<char>) -> Option<Seq<char>> {
    match rfind_char(s, '.') {
        None => None,
        Some(p) => {
            let nested = split_spans(s, '$', p + 1, s.len() as int);
            let root = span_view(s, nested[0]);
            let tail = nonempty_spans(nested.drop_first());
            if tail.len() == 0 {
                None
            } else {
                let parts = split_spans(s, '.', 0, p);
                match last_span_equal(s, parts, root) {
                    None => None,
                    Some(ri) => Some(
                        join(
                            (parts.take(ri) + seq![nested[0]] + tail).map_values(
                                |sp: (int, int)| span_view(s, sp),
                            ),
                            '.',
                        ),
                    ),
                }
            }
        },
    }
}

/// The names to try: the reference as written, then its source spelling
/// when that differs.
pub open spec fn spec_singleton_type_names(s: Seq<char>) -> Seq<Seq<char>> {
    match spec_singleton_source(s) {
        Some(src) => if src != s {
            seq![s, src]
        } else {
            seq![s]
        },
        None => seq![s],
    }
}

/// Exec `split_spans`.
fn split_spans_exec(s: &Vec<char>, c: char, start: usize, end: usize) -> (r: Vec<(usize, usize)>)
    requires
        start <= end <= s.len(),
    ensures
        r@.map_values(|sp: (usize, usize)| (sp.0 as int, sp.1 as int)) == split_spans(
            s@,
            c,
            start as int,
            end as int,
        ),
        forall|i: int| 0 <= i < r@.len() ==> start <= (#[trigger] r@[i]).0 <= r@[i].1 <= end,
        r@.len() >= 1,
{
    let mut out: Vec<(usize, usize)> = Vec::new();
    let mut cur = start;
    let mut k = start;
    loop
        invariant
            start <= cur <= k <= end <= s.len(),
            find_char_from(s@, c, cur as int, end as int) == find_char_from(s@, c, k as int, end as int),
            split_spans(s@, c, start as int, end as int) == out@.map_values(
                |sp: (usize, usize)| (sp.0 as int, sp.1 as int),
            ) + split_spans(s@, c, cur as int, end as int),
            forall|i: int| 0 <= i < out@.len() ==> start <= (#[trigger] out@[i]).0 <= out@[i].1 <= end,
        decreases end - k, end - cur,
    {
        if k < end && s[k] != c {
            k += 1;
        } else {
            proof {
                lemma_find_char_from(s@, c, cur as int, end as int);
            }
            let ghost before = out@;
            out.push((cur, k));
            if k >= end {
                assert(out@.map_values(|sp: (usize, usize)| (sp.0 as int, sp.1 as int)) =~= before.map_values(
                    |sp: (usize, usize)| (sp.0 as int, sp.1 as int),
                ) + seq![(cur as int, end as int)]);
                assert(split_spans(s@, c, start as int, end as int) == out@.map_values(
                    |sp: (usize, usize)| (sp.0 as int, sp.1 as int),
                ));
                return out;
            }
            assert(out@.map_values(|sp: (usize, usize)| (sp.0 as int, sp.1 as int)) =~= before.map_values(
                |sp: (usize, usize)| (sp.0 as int, sp.1 as int),
            ) + seq![(cur as int, k as int)]);
            cur = k + 1;
            k = k + 1;
        }
    }
}

/// Whether two spans of `s` hold the same text.
fn spans_equal(s: &Vec<char>, a: (usize, usize), b: (usize, usize)) -> (r: bool)
    requires
        a.0 <= a.1 <= s.len(),
        b.0 <= b.1 <= s.len(),
    ensures
        r == (s@.subrange(a.0 as int, a.1 as int) == s@.subrange(b.0 as int, b.1 as int)),
{
    if a.1 - a.0 != b.1 - b.0 {
        assert(s@.subrange(a.0 as int, a.1 as int).len() != s@.subrange(b.0 as int, b.1 as int).len());
        return false;
    }
    let n = a.1 - a.0;
    let ghost sa = s@.subrange(a.0 as int, a.1 as int);
    let ghost sb = s@.subrange(b.0 as int, b.1 as int);
    let mut i: usize = 0;
    while i < n
        invariant
            n == a.1 - a.0,
            n == b.1 - b.0,
            a.1 <= s.len(),
            b.1 <= s.len(),
            sa == s@.subrange(a.0 as int, a.1 as int),
            sb == s@.subrange(b.0 as int, b.1 as int),
            i <= n,
            forall|t: int| 0 <= t < i ==> #[trigger] sa[t] == sb[t],
        decreases n - i,
    {
        if s[a.0 + i] != s[b.0 + i] {
            assert(sa[i as int] != sb[i as int]);
            return false;
        }
        assert(sa[i as int] == sb[i as int]);
        i += 1;
    }
    assert(s@.subrange(a.0 as int, a.1 as int) =~= s@.subrange(b.0 as int, b.1 as int));
    true
}

pub open spec fn spans_as_int(v: Seq<(usize, usize)>) -> Seq<(int, int)> {
    v.map_values(|sp: (usize, usize)| (sp.0 as int, sp.1 as int))
}

/// The text of `pieces`, joined with `.`.
fn join_spans(text: &str, s: &Vec<char>, pieces: &Vec<(usize, usize)>) -> (r: String)
    requires
        s@ == text@,
        forall|i: int| 0 <= i < pieces@.len() ==> (#[trigger] pieces@[i]).0 <= pieces@[i].1 <= s.len(),
    ensures
        r@ == join(spans_as_int(pieces@).map_values(|sp: (int, int)| span_view(s@, sp)), '.'),
{
    let ghost views = spans_as_int(pieces@).map_values(|sp: (int, int)| span_view(s@, sp));
    let dot = ".";
    proof {
        reveal_strlit(".");
    }
    let mut out = String::new();
    let mut i: usize = 0;
    while i < pieces.len()
        invariant
            s@ == text@,
            dot@ == seq!['.'],
            views == spans_as_int(pieces@).map_values(|sp: (int, int)| span_view(s@, sp)),
            views.len() == pieces@.len(),
            forall|k: int| 0 <= k < pieces@.len() ==> (#[trigger] pieces@[k]).0 <= pieces@[k].1 <= s.len(),
            i <= pieces.len(),
            out@ == join(views.take(i as int), '.'),
        decreases pieces.len() - i,
    {
        let (a, b) = pieces[i];
        let piece = text.substring_char(a, b);
        assert(piece@ == views[i as int]);
        if i > 0 {
            out.append(dot);
        }
        out.append(piece);
        proof {
            let t = views.take(i + 1);
            assert(t.drop_last() =~= views.take(i as int));
            assert(t.last() == views[i as int]);
            if i == 0 {
                assert(out@ =~= t[0]);
            } else {
                assert(out@ =~= join(views.take(i as int), '.').push('.') + views[i as int]);
            }
        }
        i += 1;
    }
    assert(views.take(pieces@.len() as int) =~= views);
    out
}

/// The source-style names to try for a pickled singleton reference.
///
/// Most `Single` references use a dotted Scala name, but some nsc pickles
/// carry a binary nested name in the final segment while retaining the
/// enclosing source path.  `ColumnOption.PrimaryKey` is the representative
/// shape: `ColumnOption.ColumnOption$PrimaryKey` must be looked up as
/// `ColumnOption.PrimaryKey`.  Keep the name as written first so a legitimate class
/// whose source name contains `$` retains its existing interpretation.
#[verifier::loop_isolation(false)]
pub fn singleton_type_names(sym: &str) -> (r: Vec<String>)
    ensures
        r@.map_values(|n: String| n@) == spec_singleton_type_names(sym@),
{
    let s = chars_of(sym);
    let mut names: Vec<String> = Vec::new();
    names.push(sym.to_owned());
    assert(names@.map_values(|n: String| n@) =~= seq![sym@]);
    proof {
        lemma_rfind_char_bound(s@, '.');
    }
    let p = match rfind_char_exec(&s, '.') {
        None => {
            return names;
        },
        Some(p) => p,
    };
    let nested = split_spans_exec(&s, '$', p + 1, s.len());
    let ghost nested_spec = split_spans(s@, '$', p + 1, s@.len() as int);
    let root = nested[0];
    assert(spans_as_int(nested@)[0] == nested_spec[0]);
    let mut tail: Vec<(usize, usize)> = Vec::new();
    let mut i: usize = 1;
    assert(nested_spec.subrange(1, nested_spec.len() as int) =~= nested_spec.drop_first());
    while i < nested.len()
        invariant
            1 <= i <= nested.len(),
            spans_as_int(nested@) == nested_spec,
            nonempty_spans(nested_spec.drop_first()) == spans_as_int(tail@) + nonempty_spans(
                nested_spec.subrange(i as int, nested_spec.len() as int),
            ),
            forall|k: int| 0 <= k < tail@.len() ==> (#[trigger] tail@[k]).0 <= tail@[k].1 <= s.len(),
        decreases nested.len() - i,
    {
        let sp = nested[i];
        let ghost rest = nested_spec.subrange(i as int, nested_spec.len() as int);
        assert(rest[0] == (sp.0 as int, sp.1 as int));
        assert(rest.drop_first() =~= nested_spec.subrange(i + 1, nested_spec.len() as int));
        let ghost before = tail@;
        if sp.0 < sp.1 {
            tail.push(sp);
            assert(spans_as_int(tail@) =~= spans_as_int(before) + seq![(sp.0 as int, sp.1 as int)]);
        }
        i += 1;
    }
    assert(nested_spec.subrange(nested.len() as int, nested_spec.len() as int) =~= Seq::<(int, int)>::empty());
    assert(spans_as_int(tail@) =~= nonempty_spans(nested_spec.drop_first()));
    if tail.len() == 0 {
        return names;
    }
    let parts = split_spans_exec(&s, '.', 0, p);
    let ghost parts_spec = split_spans(s@, '.', 0, p as int);
    let mut ri = parts.len();
    assert(parts_spec.take(ri as int) =~= parts_spec);
    loop
        invariant
            ri <= parts.len(),
            spans_as_int(parts@) == parts_spec,
            last_span_equal(s@, parts_spec, span_view(s@, nested_spec[0])) == last_span_equal(
                s@,
                parts_spec.take(ri as int),
                span_view(s@, nested_spec[0]),
            ),
        decreases ri,
    {
        if ri == 0 {
            assert(parts_spec.take(0).len() == 0);
            return names;
        }
        let cand = parts[ri - 1];
        assert(parts_spec.take(ri as int).last() == (cand.0 as int, cand.1 as int));
        if spans_equal(&s, cand, root) {
            break;
        }
        assert(parts_spec.take(ri as int).drop_last() =~= parts_spec.take(ri - 1));
        ri -= 1;
    }
    let ri = ri - 1;
    let mut pieces: Vec<(usize, usize)> = Vec::new();
    let mut j: usize = 0;
    while j < ri
        invariant
            ri < parts.len(),
            j <= ri,
            spans_as_int(pieces@) == parts_spec.take(j as int),
            forall|k: int| 0 <= k < pieces@.len() ==> (#[trigger] pieces@[k]).0 <= pieces@[k].1 <= s.len(),
        decreases ri - j,
    {
        pieces.push(parts[j]);
        assert(spans_as_int(pieces@) =~= parts_spec.take(j + 1));
        j += 1;
    }
    pieces.push(root);
    let mut t: usize = 0;
    while t < tail.len()
        invariant
            t <= tail.len(),
            spans_as_int(pieces@) == parts_spec.take(ri as int) + seq![nested_spec[0]] + spans_as_int(tail@).take(t as int),
            forall|k: int| 0 <= k < pieces@.len() ==> (#[trigger] pieces@[k]).0 <= pieces@[k].1 <= s.len(),
        decreases tail.len() - t,
    {
        let ghost before = pieces@;
        pieces.push(tail[t]);
        assert(spans_as_int(pieces@) =~= spans_as_int(before).push((tail@[t as int].0 as int, tail@[t as int].1 as int)));
        assert(spans_as_int(tail@).take(t + 1) =~= spans_as_int(tail@).take(t as int).push((tail@[t as int].0 as int, tail@[t as int].1 as int)));
        assert(spans_as_int(pieces@) =~= parts_spec.take(ri as int) + seq![nested_spec[0]] + spans_as_int(tail@).take(t + 1));
        t += 1;
    }
    assert(spans_as_int(tail@).take(tail@.len() as int) =~= spans_as_int(tail@));
    let source = join_spans(sym, &s, &pieces);
    let whole = sym.to_owned();
    if !(source == whole) {
        names.push(source);
        assert(names@.map_values(|n: String| n@) =~= seq![sym@, source@]);
    }
    names
}

/// A JVM internal name in dotted form, module `$` dropped:
/// `scala/Predef$` is `scala.Predef`.
pub open spec fn dotted_class_name(internal: Seq<char>) -> Seq<char> {
    replace_char(trim_end(internal, '$'), '/', '.')
}

/// Whether a pickled owner path names the class whose JVM internal name is
/// `internal`, in either its binary (`a.Outer$Inner`) or its source
/// (`a.Outer.Inner`) spelling. An unnamed class matches nothing.
pub open spec fn spec_same_class_owner(internal: Seq<char>, owner: Seq<char>) -> bool {
    internal.len() > 0 && (owner == dotted_class_name(internal) || owner == replace_char(
        dotted_class_name(internal),
        '$',
        '.',
    ))
}

/// Copy of `s[..n]` with `from` replaced by `to`.
fn replaced_prefix(s: &Vec<char>, n: usize, from: char, to: char) -> (r: Vec<char>)
    requires
        n <= s.len(),
    ensures
        r@ == replace_char(s@.subrange(0, n as int), from, to),
{
    let mut r: Vec<char> = Vec::new();
    let mut i: usize = 0;
    while i < n
        invariant
            n <= s.len(),
            i <= n,
            r@ == replace_char(s@.subrange(0, i as int), from, to),
        decreases n - i,
    {
        let c = s[i];
        r.push(if c == from { to } else { c });
        assert(replace_char(s@.subrange(0, i + 1), from, to) =~= replace_char(s@.subrange(0, i as int), from, to).push(if c == from { to } else { c }));
        i += 1;
    }
    r
}

/// Compare a pickled owner path with the exact class identity, including its
/// package and nested-class spelling. A simple-name comparison lets unrelated
/// `one.Shape` and `two.Shape` satisfy the same dependent projection.
///
/// `internal` is the class symbol's JVM internal name.
pub fn same_class_owner(internal: &str, owner: &str) -> (r: bool)
    ensures
        r == spec_same_class_owner(internal@, owner@),
{
    let s = chars_of(internal);
    if s.len() == 0 {
        return false;
    }
    let o = chars_of(owner);
    let n = trim_end_len(&s, '$');
    let dotted = replaced_prefix(&s, n, '/', '.');
    if chars_eq(&o, &dotted) {
        return true;
    }
    let source = replaced_prefix(&dotted, dotted.len(), '$', '.');
    assert(dotted@.subrange(0, dotted@.len() as int) =~= dotted@);
    chars_eq(&o, &source)
}

pub open spec fn duration_package() -> Seq<char> {
    "scala.concurrent.duration.package"@
}

pub open spec fn quasiquotes_owner() -> Seq<char> {
    "scala.reflect.api.Quasiquotes"@
}

/// Whether a pickled implicit-class conversion is part of a library's source
/// API and so is supplied: a prelude class keeps its own declarations, and
/// the duration conversions (`DurationInt`, `DurationLong`,
/// `DurationDouble` in `scala.concurrent.duration.package`) and `Quasiquote`
/// (in `scala.reflect.api.Quasiquotes`) are lowered by the typer itself.
pub open spec fn spec_implicit_class_conversion_from(
    is_conversion: bool,
    class_id: u32,
    prelude_end: u32,
    owner: Seq<char>,
    name: Seq<char>,
) -> bool {
    let o = trim_end(replace_char(replace_char(owner, '/', '.'), '$', '.'), '.');
    let duration = o == duration_package() && (name == "DurationInt"@ || name == "DurationLong"@
        || name == "DurationDouble"@);
    let quasiquote = o == quasiquotes_owner() && name == "Quasiquote"@;
    is_conversion && class_id >= prelude_end && !duration && !quasiquote
}

/// Synthetic implicit-class conversions are part of a library's source API.
/// Preserve compiler-owned prelude declarations and the two lazy conversion
/// models whose lowering is handled directly by the typer. A package beginning
/// with `scala` is not by itself evidence that a library has a compiler model.
///
/// `is_conversion` says whether the pickled member is an implicit-class
/// conversion, `class_id` is the receiver's symbol and `prelude_end` the first
/// symbol not built by the prelude; `owner` and `name` are the pickled
/// member's owner path and name.
pub fn implicit_class_conversion_from(
    is_conversion: bool,
    class_id: u32,
    prelude_end: u32,
    owner: &str,
    name: &str,
) -> (r: bool)
    ensures
        r == spec_implicit_class_conversion_from(is_conversion, class_id, prelude_end, owner@, name@),
{
    if !is_conversion || class_id < prelude_end {
        return false;
    }
    let raw = chars_of(owner);
    let slashes = replaced_prefix(&raw, raw.len(), '/', '.');
    let dots = replaced_prefix(&slashes, slashes.len(), '$', '.');
    let n = trim_end_len(&dots, '.');
    assert(raw@.subrange(0, raw@.len() as int) =~= raw@);
    assert(slashes@.subrange(0, slashes@.len() as int) =~= slashes@);
    let mut o: Vec<char> = Vec::new();
    let mut i: usize = 0;
    while i < n
        invariant
            n <= dots.len(),
            i <= n,
            o@ == dots@.subrange(0, i as int),
        decreases n - i,
    {
        o.push(dots[i]);
        i += 1;
    }
    let m = chars_of(name);
    let duration = chars_eq(&o, &chars_of("scala.concurrent.duration.package")) && (chars_eq(
        &m,
        &chars_of("DurationInt"),
    ) || chars_eq(&m, &chars_of("DurationLong")) || chars_eq(&m, &chars_of("DurationDouble")));
    let quasiquote = chars_eq(&o, &chars_of("scala.reflect.api.Quasiquotes")) && chars_eq(
        &m,
        &chars_of("Quasiquote"),
    );
    !duration && !quasiquote
}

} // verus!
