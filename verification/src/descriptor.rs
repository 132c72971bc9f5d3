//! JVM method descriptors: `(I[[Ljava/lang/String;J)V` and friends.
//!
//! A descriptor's parameter list is read one field descriptor at a time: any
//! number of `[`, then either `L...;` or a single other character. Nothing
//! after the closing `)` is looked at.
use vstd::prelude::*;
use vstd::string::*;

use crate::symbols::Prim;
use crate::text::chars_of;

verus! {

/// Index just past the run of `[` that starts at `i`.
pub open spec fn skip_arrays(d: Seq<char>, i: int) -> int
    decreases d.len() - i,
{
    if 0 <= i < d.len() && d[i] == '[' {
        skip_arrays(d, i + 1)
    } else {
        i
    }
}

/// Index of the first `;` at or after `i`, or `d.len()` when there is none.
pub open spec fn find_semicolon(d: Seq<char>, i: int) -> int
    decreases d.len() - i,
{
    if 0 <= i < d.len() && d[i] != ';' {
        find_semicolon(d, i + 1)
    } else {
        i
    }
}

pub proof fn lemma_skip_arrays_bounds(d: Seq<char>, i: int)
    requires
        0 <= i,
    ensures
        i <= skip_arrays(d, i),
        i <= d.len() ==> skip_arrays(d, i) <= d.len(),
    decreases d.len() - i,
{
    if 0 <= i < d.len() && d[i] == '[' {
        lemma_skip_arrays_bounds(d, i + 1);
    }
}

pub proof fn lemma_find_semicolon_bounds(d: Seq<char>, i: int)
    requires
        0 <= i,
    ensures
        i <= find_semicolon(d, i),
        i <= d.len() ==> find_semicolon(d, i) <= d.len(),
        find_semicolon(d, i) < d.len() ==> d[find_semicolon(d, i)] == ';',
    decreases d.len() - i,
{
    if 0 <= i < d.len() && d[i] != ';' {
        lemma_find_semicolon_bounds(d, i + 1);
    }
}

/// Where the field descriptor starting at `i` ends (exclusive), or `None`
/// when the text runs out first.
pub open spec fn field_end(d: Seq<char>, i: int) -> Option<int> {
    let j = skip_arrays(d, i);
    if j >= d.len() {
        None
    } else if d[j] == 'L' {
        let k = find_semicolon(d, j);
        if k >= d.len() {
            None
        } else {
            Some(k + 1)
        }
    } else {
        Some(j + 1)
    }
}

pub proof fn lemma_field_end_advances(d: Seq<char>, i: int)
    requires
        0 <= i,
    ensures
        field_end(d, i) matches Some(e) ==> i < e <= d.len(),
{
    lemma_skip_arrays_bounds(d, i);
    let j = skip_arrays(d, i);
    if j < d.len() && d[j] == 'L' {
        lemma_find_semicolon_bounds(d, j);
    }
}

/// The `(start, end)` spans of the field descriptors from `i` up to the
/// closing `)`, or `None` when there is no closing `)` to stop at.
pub open spec fn param_spans(d: Seq<char>, i: int) -> Option<Seq<(int, int)>>
    decreases d.len() - i,
{
    if i < 0 || i >= d.len() {
        None
    } else if d[i] == ')' {
        Some(Seq::empty())
    } else {
        match field_end(d, i) {
            None => None,
            Some(e) => {
                proof {
                    lemma_field_end_advances(d, i);
                }
                match param_spans(d, e) {
                    None => None,
                    Some(rest) => Some(seq![(i, e)] + rest),
                }
            },
        }
    }
}

/// The parameter descriptors of a method descriptor, in order.
pub open spec fn spec_desc_params(d: Seq<char>) -> Option<Seq<Seq<char>>> {
    if d.len() == 0 || d[0] != '(' {
        None
    } else {
        match param_spans(d, 1) {
            None => None,
            Some(spans) => Some(spans.map_values(|s: (int, int)| d.subrange(s.0, s.1))),
        }
    }
}

/// Number of parameters of a method descriptor.
pub open spec fn spec_desc_arity(d: Seq<char>) -> Option<nat> {
    match spec_desc_params(d) {
        None => None,
        Some(ps) => Some(ps.len()),
    }
}


/// One field descriptor read at `i` moves its span from the unread rest to
/// the spans read so far.
proof fn lemma_step_spans(d: Seq<char>, i: int, e: int, spans: Seq<(int, int)>)
    requires
        0 <= i < d.len(),
        d[i] != ')',
        field_end(d, i) == Some(e),
    ensures
        (match param_spans(d, i) {
            None => None,
            Some(rest) => Some(spans + rest),
        }) == (match param_spans(d, e) {
            None => None,
            Some(rest) => Some(spans.push((i, e)) + rest),
        }),
{
    lemma_field_end_advances(d, i);
    match param_spans(d, e) {
        None => {},
        Some(rest) => {
            assert(spans + (seq![(i, e)] + rest) =~= spans.push((i, e)) + rest);
        },
    }
}

/// Exec counterpart of [`field_end`].
fn scan_field(d: &Vec<char>, i: usize) -> (r: Option<usize>)
    requires
        i < d.len(),
    ensures
        r is None <==> field_end(d@, i as int) is None,
        r matches Some(e) ==> field_end(d@, i as int) == Some(e as int) && i < e <= d.len(),
{
    proof {
        lemma_field_end_advances(d@, i as int);
        lemma_skip_arrays_bounds(d@, i as int);
    }
    let mut j = i;
    while j < d.len() && d[j] == '['
        invariant
            i <= j <= d.len(),
            skip_arrays(d@, i as int) == skip_arrays(d@, j as int),
        decreases d.len() - j,
    {
        j += 1;
    }
    if j >= d.len() {
        return None;
    }
    if d[j] == 'L' {
        let mut k = j;
        while k < d.len() && d[k] != ';'
            invariant
                j <= k <= d.len(),
                find_semicolon(d@, j as int) == find_semicolon(d@, k as int),
            decreases d.len() - k,
        {
            k += 1;
        }
        if k >= d.len() {
            return None;
        }
        Some(k + 1)
    } else {
        Some(j + 1)
    }
}

/// Split a method descriptor's parameter list into individual descriptors.
pub fn desc_params(desc: &str) -> (r: Option<Vec<String>>)
    ensures
        r is Some <==> spec_desc_params(desc@) is Some,
        r matches Some(v) ==> v@.map_values(|s: String| s@) == spec_desc_params(desc@)->0,
{
    let d = chars_of(desc);
    if d.len() == 0 || d[0] != '(' {
        return None;
    }
    let mut out: Vec<String> = Vec::new();
    let ghost mut spans: Seq<(int, int)> = Seq::empty();
    let mut i: usize = 1;
    while i < d.len() && d[i] != ')'
        invariant
            d@ == desc@,
            1 <= i <= d.len(),
            d.len() > 0 && d@[0] == '(',
            param_spans(d@, 1) == (match param_spans(d@, i as int) {
                None => None,
                Some(rest) => Some(spans + rest),
            }),
            out@.len() == spans.len(),
            forall|k: int|
                0 <= k < spans.len() ==> #[trigger] out@[k]@ == d@.subrange(spans[k].0, spans[k].1),
        decreases d.len() - i,
    {
        let start = i;
        match scan_field(&d, i) {
            None => {
                return None;
            },
            Some(e) => {
                let piece = desc.substring_char(start, e);
                let owned = piece.to_owned();
                out.push(owned);
                proof {
                    lemma_step_spans(d@, start as int, e as int, spans);
                    spans = spans.push((start as int, e as int));
                }
                i = e;
            },
        }
    }
    if i >= d.len() {
        return None;
    }
    proof {
        assert(spans + Seq::<(int, int)>::empty() == spans);
        let want = spec_desc_params(d@)->0;
        assert(out@.map_values(|s: String| s@) =~= want);
    }
    Some(out)
}

/// Number of parameters in a JVM method descriptor.
pub fn desc_arity(desc: &str) -> (r: Option<usize>)
    ensures
        r is Some <==> spec_desc_arity(desc@) is Some,
        r matches Some(n) ==> n == spec_desc_arity(desc@)->0,
{
    let d = chars_of(desc);
    if d.len() == 0 || d[0] != '(' {
        return None;
    }
    let ghost mut spans: Seq<(int, int)> = Seq::empty();
    let mut i: usize = 1;
    let mut n: usize = 0;
    while i < d.len() && d[i] != ')'
        invariant
            d@ == desc@,
            1 <= i <= d.len(),
            d.len() > 0 && d@[0] == '(',
            param_spans(d@, 1) == (match param_spans(d@, i as int) {
                None => None,
                Some(rest) => Some(spans + rest),
            }),
            n == spans.len(),
            n <= i,
        decreases d.len() - i,
    {
        match scan_field(&d, i) {
            None => {
                return None;
            },
            Some(e) => {
                proof {
                    lemma_step_spans(d@, i as int, e as int, spans);
                    spans = spans.push((i as int, e as int));
                }
                n += 1;
                i = e;
            },
        }
    }
    if i >= d.len() {
        return None;
    }
    proof {
        assert(spans + Seq::<(int, int)>::empty() == spans);
    }
    Some(n)
}

/// The descriptors `ps` written one after another.
pub open spec fn joined(ps: Seq<Seq<char>>) -> Seq<char>
    decreases ps.len(),
{
    if ps.len() == 0 {
        Seq::empty()
    } else {
        ps[0] + joined(ps.drop_first())
    }
}

proof fn lemma_spans_cover(d: Seq<char>, i: int)
    requires
        0 <= i,
    ensures
        param_spans(d, i) matches Some(spans) ==> {
            &&& forall|k: int| 0 <= k < spans.len() ==> (#[trigger] spans[k]).0 < spans[k].1
            &&& exists|c: int| i <= c < d.len() && d[c] == ')' && joined(
                spans.map_values(|s: (int, int)| d.subrange(s.0, s.1)),
            ) =~= d.subrange(i, c)
        },
    decreases d.len() - i,
{
    if 0 <= i < d.len() && d[i] != ')' {
        if let Some(e) = field_end(d, i) {
            lemma_field_end_advances(d, i);
            lemma_spans_cover(d, e);
            if let Some(rest) = param_spans(d, e) {
                let spans = seq![(i, e)] + rest;
                let c = choose|c: int| e <= c < d.len() && d[c] == ')' && joined(
                    rest.map_values(|s: (int, int)| d.subrange(s.0, s.1)),
                ) =~= d.subrange(e, c);
                let ps = spans.map_values(|s: (int, int)| d.subrange(s.0, s.1));
                assert(ps.drop_first() =~= rest.map_values(|s: (int, int)| d.subrange(s.0, s.1)));
                assert(ps[0] == d.subrange(i, e));
                assert(joined(ps) =~= d.subrange(i, c));
                assert forall|k: int| 0 <= k < spans.len() implies (#[trigger] spans[k]).0 < spans[k].1 by {
                    if k > 0 {
                        assert(spans[k] == rest[k - 1]);
                    }
                }
            }
        }
    } else if 0 <= i < d.len() {
        assert(joined(Seq::<(int, int)>::empty().map_values(|s: (int, int)| d.subrange(s.0, s.1))) =~= d.subrange(i, i));
    }
}

/// A descriptor's parameter descriptors are non-empty and, written one after
/// another, are exactly the text between its `(` and the `)` that closes the
/// list; a descriptor that does not start with `(` has none.
pub proof fn lemma_desc_params_cover(d: Seq<char>)
    ensures
        (d.len() == 0 || d[0] != '(') ==> spec_desc_params(d) is None,
        spec_desc_params(d) matches Some(ps) ==> {
            &&& forall|k: int| 0 <= k < ps.len() ==> (#[trigger] ps[k]).len() > 0
            &&& exists|c: int| 1 <= c < d.len() && d[c] == ')' && joined(ps) == d.subrange(1, c)
        },
{
    if d.len() > 0 && d[0] == '(' {
        lemma_spans_cover(d, 1);
        if let Some(spans) = param_spans(d, 1) {
            let ps = spans.map_values(|s: (int, int)| d.subrange(s.0, s.1));
            assert forall|k: int| 0 <= k < ps.len() implies (#[trigger] ps[k]).len() > 0 by {
                assert(spans[k].0 < spans[k].1);
                lemma_span_in_bounds(d, 1, k);
            }
        }
    }
}

proof fn lemma_span_in_bounds(d: Seq<char>, i: int, k: int)
    requires
        0 <= i,
        param_spans(d, i) is Some,
        0 <= k < param_spans(d, i)->0.len(),
    ensures
        i <= param_spans(d, i)->0[k].0 < param_spans(d, i)->0[k].1 <= d.len(),
    decreases d.len() - i,
{
    let e = field_end(d, i)->0;
    lemma_field_end_advances(d, i);
    let rest = param_spans(d, e)->0;
    assert(param_spans(d, i)->0 == seq![(i, e)] + rest);
    if k > 0 {
        lemma_span_in_bounds(d, e, k - 1);
    }
}

/// A named slot is filled by exactly its descriptor, an unnamed one by any
/// reference or array descriptor and never by a primitive's.
pub proof fn lemma_slot_matching(desc: Seq<char>, want: Seq<Option<Seq<char>>>)
    ensures
        spec_params_match(desc, want) <==> (spec_desc_params(desc) matches Some(got) && got.len() == want.len()
            && forall|i: int|
            0 <= i < got.len() ==> match #[trigger] want[i] {
                Some(w) => got[i] == w,
                None => got[i].len() > 0 && (got[i][0] == 'L' || got[i][0] == '['),
            }),
        forall|p: Prim| !slot_matches(#[trigger] crate::prelude_boxed::prim_desc(p), None),
{
    assert forall|p: Prim| !slot_matches(#[trigger] crate::prelude_boxed::prim_desc(p), None) by {
        let d = crate::prelude_boxed::prim_desc(p);
        assert(d.len() == 1);
        assert(d[0] != 'L' && d[0] != '[');
    }
    if let Some(got) = spec_desc_params(desc) {
        if got.len() == want.len() {
            if forall|i: int| 0 <= i < got.len() ==> #[trigger] slot_matches(got[i], want[i]) {
                assert forall|i: int| 0 <= i < got.len() implies match #[trigger] want[i] {
                    Some(w) => got[i] == w,
                    None => got[i].len() > 0 && (got[i][0] == 'L' || got[i][0] == '['),
                } by {
                    assert(slot_matches(got[i], want[i]));
                }
            }
            if forall|i: int|
                0 <= i < got.len() ==> match #[trigger] want[i] {
                    Some(w) => got[i] == w,
                    None => got[i].len() > 0 && (got[i][0] == 'L' || got[i][0] == '['),
                } {
                assert forall|i: int| 0 <= i < got.len() implies #[trigger] slot_matches(got[i], want[i]) by {
                    assert(match want[i] {
                        Some(w) => got[i] == w,
                        None => got[i].len() > 0 && (got[i][0] == 'L' || got[i][0] == '['),
                    });
                }
            }
        }
    }
}

/// Whether one parameter descriptor fills a slot: a named slot needs exactly
/// that descriptor, an unnamed one any reference (`L...;` or an array).
pub open spec fn slot_matches(got: Seq<char>, want: Option<Seq<char>>) -> bool {
    match want {
        Some(w) => got == w,
        None => got.len() > 0 && (got[0] == 'L' || got[0] == '['),
    }
}

/// The slots a caller could name, as character sequences.
pub open spec fn slot_views(want: Seq<Option<String>>) -> Seq<Option<Seq<char>>> {
    want.map_values(|w: Option<String>| match w {
        Some(s) => Some(s@),
        None => None,
    })
}

pub open spec fn spec_params_match(desc: Seq<char>, want: Seq<Option<Seq<char>>>) -> bool {
    match spec_desc_params(desc) {
        None => false,
        Some(got) => got.len() == want.len() && forall|i: int|
            0 <= i < got.len() ==> #[trigger] slot_matches(got[i], want[i]),
    }
}

/// Whether a candidate descriptor's parameters agree with the slots we could
/// name. An unnamed slot matches any reference parameter but not a primitive:
/// that is what separates `from(int)` from `from(IterableOnce)`.
pub fn params_match(desc: &str, want: &[Option<String>]) -> (r: bool)
    ensures
        r == spec_params_match(desc@, slot_views(want@)),
{
    let got = match desc_params(desc) {
        None => {
            return false;
        },
        Some(g) => g,
    };
    let ghost gv = spec_desc_params(desc@)->0;
    assert(gv.len() == got@.len());
    assert(slot_views(want@).len() == want@.len());
    assert(spec_desc_params(desc@) == Some(gv));
    if got.len() != want.len() {
        assert(gv.len() != slot_views(want@).len());
        return false;
    }
    let mut i: usize = 0;
    while i < got.len()
        invariant
            got@.map_values(|s: String| s@) == gv,
            spec_desc_params(desc@) == Some(gv),
            slot_views(want@).len() == want@.len(),
            got.len() == want.len(),
            i <= got.len(),
            forall|k: int| 0 <= k < i ==> #[trigger] slot_matches(gv[k], slot_views(want@)[k]),
        decreases got.len() - i,
    {
        let g = &got[i];
        assert(gv[i as int] == g@);
        let ok = match &want[i] {
            Some(w) => *g == *w,
            None => {
                let gs = g.as_str();
                let n = gs.unicode_len();
                n > 0 && {
                    let c = gs.get_char(0);
                    c == 'L' || c == '['
                }
            },
        };
        if !ok {
            assert(!slot_matches(gv[i as int], slot_views(want@)[i as int]));
            return false;
        }
        i += 1;
    }
    true
}

} // verus!
