//! Whether a class has a given class, or one matching a test, among its
//! ancestors: a bounded depth-first walk up the parent lists.
use vstd::prelude::*;
use vstd::set_lib::*;

use crate::symbols::{SymbolId, SymbolTable, Ty};

verus! {

/// `p` is named by one of `c`'s parent types.
pub open spec fn parent_edge(st: SymbolTable, c: SymbolId, p: SymbolId) -> bool {
    &&& st.valid(c)
    &&& exists|k: int|
        0 <= k < st.sym(c).parents@.len() && SymbolTable::class_of_ty(#[trigger] st.sym(c).parents@[k]) == Some(p)
}

/// `path` climbs from its first class to its last, one parent at a time.
pub open spec fn is_path(st: SymbolTable, path: Seq<SymbolId>) -> bool {
    &&& path.len() > 0
    &&& forall|k: int| 0 <= k < path.len() - 1 ==> #[trigger] parent_edge(st, path[k], path[k + 1])
}

/// `to` is `from` or one of its ancestors.
pub open spec fn reaches(st: SymbolTable, from: SymbolId, to: SymbolId) -> bool {
    exists|path: Seq<SymbolId>| #[trigger] is_path(st, path) && path[0] == from && path.last() == to
}

/// `cls` and all its ancestors.
pub open spec fn ancestors(st: SymbolTable, cls: SymbolId) -> Set<SymbolId> {
    Set::new(|x: SymbolId| reaches(st, cls, x))
}

/// The ids of the table's slots.
pub open spec fn slot_ids(st: SymbolTable) -> Set<SymbolId> {
    set_int_range(0, st.syms@.len() as int).map(|i: int| SymbolId(i as u32))
}

pub proof fn lemma_reaches_self(st: SymbolTable, c: SymbolId)
    ensures
        reaches(st, c, c),
{
    let path = seq![c];
    assert(is_path(st, path));
}

pub proof fn lemma_reaches_step(st: SymbolTable, from: SymbolId, c: SymbolId, p: SymbolId)
    requires
        reaches(st, from, c),
        parent_edge(st, c, p),
    ensures
        reaches(st, from, p),
{
    let path = choose|path: Seq<SymbolId>| #[trigger] is_path(st, path) && path[0] == from && path.last() == c;
    let longer = path.push(p);
    assert forall|k: int| 0 <= k < longer.len() - 1 implies #[trigger] parent_edge(st, longer[k], longer[k + 1]) by {
        if k < path.len() - 1 {
            assert(longer[k] == path[k] && longer[k + 1] == path[k + 1]);
        }
    }
    assert(is_path(st, longer));
}

/// Every ancestor of a class in the table is in the table.
pub proof fn lemma_ancestors_in_table(st: SymbolTable, cls: SymbolId)
    requires
        st.wf(),
        st.valid(cls),
    ensures
        ancestors(st, cls).subset_of(slot_ids(st)),
        ancestors(st, cls).finite(),
{
    assert forall|x: SymbolId| #[trigger] ancestors(st, cls).contains(x) implies slot_ids(st).contains(x) by {
        let path = choose|path: Seq<SymbolId>| #[trigger] is_path(st, path) && path[0] == cls && path.last() == x;
        if path.len() > 1 {
            let k = path.len() - 2;
            assert(parent_edge(st, path[k], path[k + 1]));
            let c = path[k];
            let j = choose|j: int|
                0 <= j < st.sym(c).parents@.len() && SymbolTable::class_of_ty(#[trigger] st.sym(c).parents@[j]) == Some(x);
            assert(st.parent_ok(st.syms@[c.0 as int].parents@[j]));
        }
        assert(st.valid(x));
        assert(set_int_range(0, st.syms@.len() as int).contains(x.0 as int));
        assert(SymbolId((x.0 as int) as u32) == x);
    }
    lemma_int_range(0, st.syms@.len() as int);
    set_int_range(0, st.syms@.len() as int).lemma_map_finite(|i: int| SymbolId(i as u32));
    lemma_len_subset(ancestors(st, cls), slot_ids(st));
}

/// A set of classes that holds `from` and every parent of each of its
/// members holds every ancestor of `from`.
pub proof fn lemma_closed_holds_ancestors(st: SymbolTable, from: SymbolId, closed: Set<SymbolId>, x: SymbolId)
    requires
        closed.contains(from),
        forall|c: SymbolId, p: SymbolId| closed.contains(c) && #[trigger] parent_edge(st, c, p) ==> closed.contains(p),
        reaches(st, from, x),
    ensures
        closed.contains(x),
{
    let path = choose|path: Seq<SymbolId>| #[trigger] is_path(st, path) && path[0] == from && path.last() == x;
    lemma_closed_holds_path(st, closed, path, path.len() - 1);
}

proof fn lemma_closed_holds_path(st: SymbolTable, closed: Set<SymbolId>, path: Seq<SymbolId>, k: int)
    requires
        is_path(st, path),
        0 <= k < path.len(),
        closed.contains(path[0]),
        forall|c: SymbolId, p: SymbolId| closed.contains(c) && #[trigger] parent_edge(st, c, p) ==> closed.contains(p),
    ensures
        closed.contains(path[k]),
    decreases k,
{
    if k > 0 {
        lemma_closed_holds_path(st, closed, path, k - 1);
        assert(parent_edge(st, path[k - 1], path[k - 1 + 1]));
    }
}

/// The class a type names, if it is a class type.
pub fn class_sym_of(t: &Ty) -> (r: Option<SymbolId>)
    ensures
        r == SymbolTable::class_of_ty(*t),
{
    match t {
        Ty::Class { sym, .. } => Some(*sym),
        _ => None,
    }
}

/// Push the class each of `c`'s parent types names, in order.
fn push_parent_classes(st: &SymbolTable, c: SymbolId, work: &mut Vec<SymbolId>)
    requires
        st.wf(),
        st.valid(c),
    ensures
        old(work)@.is_prefix_of(final(work)@),
        forall|j: int| 0 <= j < st.sym(c).parents@.len() ==> (SymbolTable::class_of_ty(#[trigger] st.sym(c).parents@[j])
            matches Some(p) ==> final(work)@.contains(p)),
        forall|k: int| old(work)@.len() <= k < final(work)@.len() ==> #[trigger] parent_edge(*st, c, final(work)@[k])
            && st.valid(final(work)@[k]),
{
    let parents = &st.get(c).parents;
    let mut k: usize = 0;
    while k < parents.len()
        invariant
            st.wf(),
            st.valid(c),
            parents@ == st.sym(c).parents@,
            k <= parents@.len(),
            old(work)@.is_prefix_of(work@),
            forall|i: int| 0 <= i < k ==> (SymbolTable::class_of_ty(#[trigger] parents@[i]) matches Some(p) ==> work@.contains(p)),
            forall|i: int| old(work)@.len() <= i < work@.len() ==> #[trigger] parent_edge(*st, c, work@[i]) && st.valid(work@[i]),
        decreases parents@.len() - k,
    {
        if let Some(p) = class_sym_of(&parents[k]) {
            proof {
                assert(parent_edge(*st, c, p));
                assert(st.parent_ok(st.syms@[c.0 as int].parents@[k as int]));
            }
            let ghost before = work@;
            work.push(p);
            proof {
                assert(work@[work@.len() - 1] == p);
                assert forall|i: int| 0 <= i < k + 1 implies (SymbolTable::class_of_ty(#[trigger] parents@[i]) matches Some(q)
                    ==> work@.contains(q)) by {
                    if i < k {
                        if let Some(q) = SymbolTable::class_of_ty(parents@[i]) {
                            let w = choose|w: int| 0 <= w < before.len() && before[w] == q;
                            assert(work@[w] == before[w]);
                        }
                    }
                }
            }
        }
        k += 1;
    }
}

fn seen_contains(seen: &Vec<SymbolId>, c: SymbolId) -> (r: bool)
    ensures
        r == seen@.contains(c),
{
    let mut k: usize = 0;
    while k < seen.len()
        invariant
            k <= seen@.len(),
            forall|i: int| 0 <= i < k ==> seen@[i] != c,
        decreases seen@.len() - k,
    {
        if seen[k] == c {
            return true;
        }
        k += 1;
    }
    false
}

/// Whether `cls` or one of its ancestors passes `matches`, walking depth
/// first up the parent lists, testing each class as it is reached and
/// climbing from at most 257 distinct classes. The answer is exact whenever
/// `cls` has no more ancestors than that (itself included); beyond, a
/// `true` is still always right.
#[verifier::spinoff_prover]
#[verifier::rlimit(40)]
pub(crate) fn inherits_matching<F: Fn(SymbolId) -> bool>(
    st: &SymbolTable,
    cls: SymbolId,
    matches: F,
    pred: Ghost<spec_fn(SymbolId) -> bool>,
) -> (r: bool)
    requires
        st.wf(),
        st.valid(cls),
        forall|c: SymbolId| #[trigger] matches.requires((c,)),
        forall|c: SymbolId, b: bool| matches.ensures((c,), b) ==> b == pred@(c),
    ensures
        r ==> exists|x: SymbolId| #[trigger] reaches(*st, cls, x) && pred@(x),
        !r && ancestors(*st, cls).len() <= 257 ==> forall|x: SymbolId| #[trigger] reaches(*st, cls, x) ==> !pred@(x),
{
    proof {
        lemma_reaches_self(*st, cls);
        lemma_ancestors_in_table(*st, cls);
    }
    let mut seen: Vec<SymbolId> = Vec::new();
    let mut work: Vec<SymbolId> = Vec::new();
    work.push(cls);
    assert(work@[0] == cls);
    let ghost mut blocked: bool = false;
    loop
        invariant
            st.wf(),
            st.valid(cls),
            forall|c: SymbolId| #[trigger] matches.requires((c,)),
            forall|c: SymbolId, b: bool| matches.ensures((c,), b) ==> b == pred@(c),
            ancestors(*st, cls).finite(),
            seen@.len() <= 257,
            seen@.no_duplicates(),
            forall|k: int| 0 <= k < work@.len() ==> #[trigger] reaches(*st, cls, work@[k]) && st.valid(work@[k]),
            forall|k: int| 0 <= k < seen@.len() ==> #[trigger] reaches(*st, cls, seen@[k]) && !pred@(seen@[k]),
            !blocked ==> seen@.contains(cls) || work@.contains(cls),
            !blocked ==> forall|c: SymbolId, p: SymbolId|
                seen@.contains(c) && #[trigger] parent_edge(*st, c, p) ==> seen@.contains(p) || work@.contains(p),
            blocked ==> seen@.len() == 257 && exists|c: SymbolId| #[trigger] reaches(*st, cls, c) && !seen@.contains(c),
        ensures
            work@.len() == 0,
            ancestors(*st, cls).finite(),
            seen@.no_duplicates(),
            forall|k: int| 0 <= k < seen@.len() ==> #[trigger] reaches(*st, cls, seen@[k]) && !pred@(seen@[k]),
            !blocked ==> seen@.contains(cls) || work@.contains(cls),
            !blocked ==> forall|c: SymbolId, p: SymbolId|
                seen@.contains(c) && #[trigger] parent_edge(*st, c, p) ==> seen@.contains(p) || work@.contains(p),
            blocked ==> seen@.len() == 257 && exists|c: SymbolId| #[trigger] reaches(*st, cls, c) && !seen@.contains(c),
        decreases 257 - seen@.len(), work@.len(),
    {
        let ghost before_pop = work@;
        let ghost seen0 = seen@;
        let c = match work.pop() {
            Some(c) => c,
            None => {
                break;
            },
        };
        let ghost rest = work@;
        proof {
            assert(before_pop == rest.push(c));
            assert(before_pop[rest.len() as int] == c);
            assert(reaches(*st, cls, before_pop[rest.len() as int]));
            assert(st.valid(before_pop[rest.len() as int]));
            // whatever `before_pop` held is now `c` or still in `work`
            assert forall|x: SymbolId| before_pop.contains(x) && x != c implies work@.contains(x) by {
                let i = choose|i: int| 0 <= i < before_pop.len() && before_pop[i] == x;
                assert(i != rest.len());
                assert(work@[i] == x);
            }
            assert forall|k: int| 0 <= k < work@.len() implies #[trigger] reaches(*st, cls, work@[k]) && st.valid(work@[k]) by {
                assert(work@[k] == before_pop[k]);
                assert(reaches(*st, cls, before_pop[k]));
            }
        }
        if matches(c) {
            return true;
        }
        if seen_contains(&seen, c) || seen.len() > 256 {
            proof {
                if !seen@.contains(c) && !blocked {
                    blocked = true;
                }
                if !blocked {
                    assert(seen@.contains(c));
                    assert forall|x: SymbolId, p: SymbolId|
                        seen@.contains(x) && #[trigger] parent_edge(*st, x, p) implies seen@.contains(p) || work@.contains(p) by {
                        assert(seen0.contains(p) || before_pop.contains(p));
                    }
                }
            }
            continue;
        }
        seen.push(c);
        proof {
            assert(seen@.last() == c);
            assert forall|k: int| 0 <= k < seen@.len() implies #[trigger] reaches(*st, cls, seen@[k]) && !pred@(seen@[k]) by {
                if k < seen0.len() {
                    assert(seen@[k] == seen0[k]);
                    assert(reaches(*st, cls, seen0[k]));
                }
            }
            assert forall|x: SymbolId| seen0.contains(x) implies seen@.contains(x) by {
                let i = choose|i: int| 0 <= i < seen0.len() && seen0[i] == x;
                assert(seen@[i] == x);
            }
        }
        let ghost mid = work@;
        push_parent_classes(st, c, &mut work);
        proof {
            assert forall|x: SymbolId| mid.contains(x) implies work@.contains(x) by {
                let i = choose|i: int| 0 <= i < mid.len() && mid[i] == x;
                assert(work@[i] == mid[i]);
            }
            assert forall|p: SymbolId| #[trigger] parent_edge(*st, c, p) implies work@.contains(p) by {
                let j = choose|j: int|
                    0 <= j < st.sym(c).parents@.len() && SymbolTable::class_of_ty(#[trigger] st.sym(c).parents@[j]) == Some(p);
            }
            assert forall|k: int| 0 <= k < work@.len() implies #[trigger] reaches(*st, cls, work@[k]) && st.valid(work@[k]) by {
                if k < mid.len() {
                    assert(work@[k] == mid[k]);
                    assert(reaches(*st, cls, mid[k]));
                } else {
                    assert(parent_edge(*st, c, work@[k]));
                    assert(reaches(*st, cls, c));
                    lemma_reaches_step(*st, cls, c, work@[k]);
                }
            }
            if !blocked {
                assert(seen@.contains(cls) || work@.contains(cls)) by {
                    if cls != c && !seen0.contains(cls) {
                        assert(before_pop.contains(cls));
                        assert(mid.contains(cls));
                    }
                }
                assert forall|x: SymbolId, p: SymbolId|
                    seen@.contains(x) && #[trigger] parent_edge(*st, x, p) implies seen@.contains(p) || work@.contains(p) by {
                    if x != c {
                        let i = choose|i: int| 0 <= i < seen@.len() && seen@[i] == x;
                        assert(seen0.contains(x)) by {
                            assert(seen0[i] == x);
                        }
                        assert(seen0.contains(p) || before_pop.contains(p));
                        if !seen0.contains(p) && p != c {
                            assert(mid.contains(p));
                        }
                    }
                }
            }
        }
    }
    proof {
        if !blocked {
            let closed = seen@.to_set();
            assert forall|x: SymbolId, p: SymbolId| closed.contains(x) && #[trigger] parent_edge(*st, x, p) implies closed.contains(p) by {
                assert(seen@.contains(x));
            }
            assert(closed.contains(cls));
            assert forall|x: SymbolId| #[trigger] reaches(*st, cls, x) implies !pred@(x) by {
                lemma_closed_holds_ancestors(*st, cls, closed, x);
                let k = choose|k: int| 0 <= k < seen@.len() && seen@[k] == x;
                assert(reaches(*st, cls, seen@[k]));
            }
        } else {
            let c = choose|c: SymbolId| #[trigger] reaches(*st, cls, c) && !seen@.contains(c);
            let s = seen@.to_set();
            seen@.unique_seq_to_set();
            assert forall|x: SymbolId| #[trigger] s.insert(c).contains(x) implies ancestors(*st, cls).contains(x) by {
                if x != c {
                    let k = choose|k: int| 0 <= k < seen@.len() && seen@[k] == x;
                    assert(reaches(*st, cls, seen@[k]));
                }
            }
            lemma_len_subset(s.insert(c), ancestors(*st, cls));
        }
    }
    false
}

/// Whether `cls` already has `target` among its ancestors (or is it),
/// walking at most as far as `inherits_matching` does.
pub fn inherits_from(st: &SymbolTable, cls: SymbolId, target: SymbolId) -> (r: bool)
    requires
        st.wf(),
        st.valid(cls),
    ensures
        r ==> reaches(*st, cls, target),
        !r && ancestors(*st, cls).len() <= 257 ==> !reaches(*st, cls, target),
{
    let is_target = |c: SymbolId| -> (b: bool)
        ensures
            b == (c == target),
    {
        c == target
    };
    let r = inherits_matching(st, cls, is_target, Ghost(|c: SymbolId| c == target));
    proof {
        if r {
            let x = choose|x: SymbolId| #[trigger] reaches(*st, cls, x) && x == target;
        }
        if !r && ancestors(*st, cls).len() <= 257 {
            assert(reaches(*st, cls, target) ==> target != target);
        }
    }
    r
}

/// The classes `cls`'s parent types name, in order.
pub open spec fn spec_parent_classes(st: SymbolTable, cls: SymbolId) -> Seq<SymbolId> {
    parent_classes_upto(st.sym(cls).parents@, st.sym(cls).parents@.len() as int)
}

/// The classes the first `n` of `parents` name, in order.
pub open spec fn parent_classes_upto(parents: Seq<Ty>, n: int) -> Seq<SymbolId>
    decreases n,
{
    if n <= 0 {
        Seq::empty()
    } else {
        let rest = parent_classes_upto(parents, n - 1);
        match SymbolTable::class_of_ty(parents[n - 1]) {
            Some(c) => rest.push(c),
            None => rest,
        }
    }
}

/// The class symbols `cls`'s parent list names.
pub fn parent_classes(st: &SymbolTable, cls: SymbolId) -> (r: Vec<SymbolId>)
    requires
        st.valid(cls),
    ensures
        r@ == spec_parent_classes(*st, cls),
{
    let parents = &st.get(cls).parents;
    let mut out: Vec<SymbolId> = Vec::new();
    let mut k: usize = 0;
    while k < parents.len()
        invariant
            parents@ == st.sym(cls).parents@,
            k <= parents@.len(),
            out@ == parent_classes_upto(parents@, k as int),
        decreases parents@.len() - k,
    {
        if let Some(c) = class_sym_of(&parents[k]) {
            out.push(c);
        }
        k += 1;
    }
    out
}

} // verus!
