//! Building blocks of the hand-written prelude.
use vstd::prelude::*;
use vstd::string::*;

use crate::symbols::{
    adds_owned, lemma_grows_fresh_slot, lemma_grows_trans, FLAG_ABSTRACT, FLAG_FINAL, FLAG_INTERFACE, FLAG_JAVA, FLAG_MODULE,
    FLAG_PACKAGE, FLAG_PARAM, FLAG_TRAIT, Intrinsic, Prim, SymKind, Symbol, SymbolId, SymbolTable, Ty,
};

verus! {

/// The clause list a method of these parameters is declared with: none at
/// all for an empty parameter list, else the one clause.
pub open spec fn clauses_of(params: Seq<Ty>) -> Seq<Seq<Ty>> {
    if params.len() == 0 {
        Seq::empty()
    } else {
        seq![params]
    }
}

/// What a new prelude method symbol holds.
pub open spec fn is_prelude_method(
    s: Symbol,
    owner: SymbolId,
    name: Seq<char>,
    params: Seq<Ty>,
    ret: Ty,
    intrinsic: Intrinsic,
) -> bool {
    &&& s.name@ == name
    &&& s.kind == SymKind::Method
    &&& s.owner == Some(owner)
    &&& s.flags == FLAG_FINAL
    &&& s.jvm_name@.len() == 0
    &&& SymbolTable::method_shape(s.ty) == Some((clauses_of(params), ret))
    &&& s.intrinsic == intrinsic
}

/// A final method `name(params): ret` on `owner`, emitted as `intrinsic`.
pub fn method(st: &mut SymbolTable, owner: SymbolId, name: &str, params: Vec<Ty>, ret: Ty, intrinsic: Intrinsic) -> (id: SymbolId)
    requires
        old(st).wf(),
        old(st).syms@.len() + 1 < u32::MAX,
        old(st).valid(owner),
    ensures
        final(st).wf(),
        final(st).grows_from(*old(st)),
        id.0 == old(st).syms@.len(),
        final(st).syms@.len() == old(st).syms@.len() + 1,
        is_prelude_method(final(st).sym(id), owner, name@, params@, ret, intrinsic),
        final(st).sym(id).members@.len() == 0,
        final(st).sym(id).tparams@.len() == 0,
        final(st).sym(owner).members@ == old(st).sym(owner).members@.push(id),
        forall|i: int| 0 <= i < old(st).syms@.len() && i != owner.0 ==>
            (#[trigger] final(st).syms@[i]).members@ == old(st).syms@[i].members@,
{
    let ghost pv = params@;
    let ghost rv = ret;
    let paramss: Vec<Vec<Ty>> = if params.len() == 0 {
        Vec::new()
    } else {
        let mut v = Vec::new();
        v.push(params);
        v
    };
    assert(paramss@.map_values(|c: Vec<Ty>| c@) =~= clauses_of(pv));
    let s = Symbol {
        name: name.to_owned(),
        kind: SymKind::Method,
        owner: Some(owner),
        flags: FLAG_FINAL,
        jvm_name: String::new(),
        members: Vec::new(),
        params: Vec::new(),
        paramss: Vec::new(),
        tparams: Vec::new(),
        parents: Vec::new(),
        ctor_fields: Vec::new(),
        ty: Ty::Method { paramss, ret: Box::new(ret) },
        bound_hi: None,
        intrinsic,
    };
    st.push_symbol(s)
}

/// A final method `name` of `owner` with the one type parameter `t`, whose
/// type has these clauses and this result, emitted as `intrinsic`.
pub open spec fn is_generic_method(
    s: Symbol,
    owner: SymbolId,
    name: Seq<char>,
    clauses: Seq<Seq<Ty>>,
    ret: Ty,
    intrinsic: Intrinsic,
    t: SymbolId,
) -> bool {
    &&& s.name@ == name
    &&& s.kind == SymKind::Method
    &&& s.owner == Some(owner)
    &&& s.flags == FLAG_FINAL
    &&& s.jvm_name@.len() == 0
    &&& s.intrinsic == intrinsic
    &&& s.tparams@ == seq![t]
    &&& SymbolTable::method_shape(s.ty) == Some((clauses, ret))
}

/// `method`, then a type parameter `tname` of the new method, recorded as
/// its one type parameter.
pub fn method_with_tparam(
    st: &mut SymbolTable,
    owner: SymbolId,
    name: &str,
    params: Vec<Ty>,
    ret: Ty,
    ic: Intrinsic,
    tname: &str,
) -> (r: (SymbolId, SymbolId))
    requires
        old(st).wf(),
        old(st).valid(owner),
        old(st).syms@.len() + 2 < u32::MAX,
    ensures
        final(st).wf(),
        final(st).grows_from(*old(st)),
        final(st).syms@.len() == old(st).syms@.len() + 2,
        r.0.0 == old(st).syms@.len(),
        r.1.0 == old(st).syms@.len() + 1,
        is_generic_method(final(st).sym(r.0), owner, name@, clauses_of(params@), ret, ic, r.1),
        final(st).sym(r.0).members@ == seq![r.1],
        fresh_symbol(final(st).sym(r.1), tname@, SymKind::TypeParam, Some(r.0), 0, ""@),
        final(st).sym(r.1).ty == Ty::TypeParam(r.1),
        final(st).sym(owner).members@ == old(st).sym(owner).members@.push(r.0),
        forall|i: int| 0 <= i < old(st).syms@.len() && i != owner.0 ==>
            (#[trigger] final(st).syms@[i]).members@ == old(st).syms@[i].members@,
{
    let ghost st0 = *st;
    let m = method(st, owner, name, params, ret, ic);
    let ghost s1 = *st;
    let t = type_param(st, m, tname);
    let ghost s2 = *st;
    let tv = vec![t];
    let ghost tg = tv;
    st.set_tparams(m, tv);
    proof {
        lemma_grows_trans(st0, s1, s2);
        lemma_grows_fresh_slot(st0, s2, *st, m, Symbol { tparams: tg, ..s2.sym(m) });
        assert(s2.syms@[m.0 as int].same_except_members(s1.syms@[m.0 as int]));
        assert(st.syms@[t.0 as int] == s2.syms@[t.0 as int]);
        assert(tg@ == seq![t]);
    }
    (m, t)
}

/// A final method of `owner` with no intrinsic and no JVM name.
pub open spec fn final_method_of(s: Symbol, owner: SymbolId, name: Seq<char>) -> bool {
    &&& s.name@ == name
    &&& s.kind == SymKind::Method
    &&& s.owner == Some(owner)
    &&& s.flags == FLAG_FINAL
    &&& s.jvm_name@.len() == 0
    &&& s.intrinsic == Intrinsic::Plain
}

/// The function type `(params) => ret`.
pub open spec fn is_fn_type(t: Ty, params: Seq<Ty>, ret: Ty) -> bool {
    t matches Ty::Function { params: ps, ret: r } && ps@ == params && *r == ret
}

/// A value parameter (or field) `name` of `owner` with these flags, of type
/// `ty`, and nothing else on it.
pub open spec fn is_value_param(s: Symbol, owner: SymbolId, name: Seq<char>, flags: u64, ty: Ty) -> bool {
    &&& fresh_symbol(s, name, SymKind::Term, Some(owner), flags, ""@)
    &&& s.ty == ty
    &&& s.parents@.len() == 0
}

/// A value parameter `name: ty` of `owner`, with these flags.
pub fn value_param(st: &mut SymbolTable, owner: SymbolId, name: &str, flags: u64, ty: Ty) -> (id: SymbolId)
    requires
        old(st).wf(),
        old(st).syms@.len() + 1 < u32::MAX,
        old(st).valid(owner),
        ty matches Ty::ModuleRef(c) ==> old(st).valid(c),
    ensures
        one_more_under(*final(st), *old(st), owner, id),
        is_value_param(final(st).sym(id), owner, name@, flags, ty),
{
    let ghost st0 = *st;
    let ghost tv = ty;
    let id = st.new_symbol(name, Some(owner), SymKind::Term, flags, "");
    let ghost s1 = *st;
    st.set_ty(id, ty);
    proof {
        lemma_grows_fresh_slot(st0, s1, *st, id, Symbol { ty: tv, ..s1.sym(id) });
    }
    id
}

/// `method` for sibling prelude modules.
pub fn prelude_method(
    st: &mut SymbolTable,
    owner: SymbolId,
    name: &str,
    params: Vec<Ty>,
    ret: Ty,
    intrinsic: Intrinsic,
) -> (id: SymbolId)
    requires
        old(st).wf(),
        old(st).syms@.len() + 1 < u32::MAX,
        old(st).valid(owner),
    ensures
        final(st).wf(),
        final(st).grows_from(*old(st)),
        id.0 == old(st).syms@.len(),
        final(st).syms@.len() == old(st).syms@.len() + 1,
        is_prelude_method(final(st).sym(id), owner, name@, params@, ret, intrinsic),
        final(st).sym(id).members@.len() == 0,
        final(st).sym(id).tparams@.len() == 0,
        final(st).sym(owner).members@ == old(st).sym(owner).members@.push(id),
        forall|i: int| 0 <= i < old(st).syms@.len() && i != owner.0 ==>
            (#[trigger] final(st).syms@[i]).members@ == old(st).syms@[i].members@,
        adds_owned(*old(st), *final(st)),
{
    let ghost st0 = *st;
    let id = method(st, owner, name, params, ret, intrinsic);
    proof {
        assert forall|c: int, j: int|
            0 <= c < st0.syms@.len() && st0.syms@[c].members@.len() <= j < st.syms@[c].members@.len() implies {
                let m = #[trigger] st.syms@[c].members@[j];
                &&& m.0 >= st0.syms@.len()
                &&& st.sym(m).owner matches Some(w) && w.0 == c
            } by {
            if c != owner.0 {
                assert(st.syms@[c].members@ == st0.syms@[c].members@);
            }
        }
    }
    id
}

/// The classes the `scala` package object aliases, so that `Ordering[Int]`
/// resolves without an import: (name, JVM internal name).
pub open spec fn scala_alias(k: int) -> (Seq<char>, Seq<char>) {
    if k == 0 {
        ("Ordering"@, "scala/math/Ordering"@)
    } else if k == 1 {
        ("Numeric"@, "scala/math/Numeric"@)
    } else if k == 2 {
        ("BigInt"@, "scala/math/BigInt"@)
    } else if k == 3 {
        ("BigDecimal"@, "scala/math/BigDecimal"@)
    } else if k == 4 {
        ("Equiv"@, "scala/math/Equiv"@)
    } else if k == 5 {
        ("Fractional"@, "scala/math/Fractional"@)
    } else {
        ("Integral"@, "scala/math/Integral"@)
    }
}

fn scala_alias_at(k: usize) -> (r: (&'static str, &'static str))
    requires
        k < 7,
    ensures
        (r.0@, r.1@) == scala_alias(k as int),
{
    match k {
        0 => ("Ordering", "scala/math/Ordering"),
        1 => ("Numeric", "scala/math/Numeric"),
        2 => ("BigInt", "scala/math/BigInt"),
        3 => ("BigDecimal", "scala/math/BigDecimal"),
        4 => ("Equiv", "scala/math/Equiv"),
        5 => ("Fractional", "scala/math/Fractional"),
        _ => ("Integral", "scala/math/Integral"),
    }
}

/// What entering alias `k` adds to the scope of `st`: nothing when its class
/// is not in the table or is already entered under the alias, else the one
/// entry.
pub open spec fn alias_entry(st: SymbolTable, k: int) -> Seq<(Seq<char>, SymbolId)> {
    let (name, jvm) = scala_alias(k);
    match st.spec_find_by_jvm(jvm) {
        Some(cls) => if st.entered(name, cls) && st.sym(cls).kind == SymKind::Class {
            Seq::empty()
        } else {
            seq![(name, cls)]
        },
        None => Seq::empty(),
    }
}

/// The entries the first `n` aliases add, in order.
pub open spec fn alias_entries(st: SymbolTable, n: nat) -> Seq<(Seq<char>, SymbolId)>
    decreases n,
{
    if n == 0 {
        Seq::empty()
    } else {
        alias_entries(st, (n - 1) as nat) + alias_entry(st, n - 1)
    }
}

/// Each alias names its own class: the JVM name of alias `k` is
/// `scala/math/` followed by the alias, and the seven aliases are
/// `Ordering`, `Numeric`, `BigInt`, `BigDecimal`, `Equiv`, `Fractional` and
/// `Integral`.
pub proof fn lemma_alias_own_class(k: int)
    requires
        0 <= k < 7,
    ensures
        scala_alias(k).1 == "scala/math/"@ + scala_alias(k).0,
        scala_alias(k).0 == [
            "Ordering"@,
            "Numeric"@,
            "BigInt"@,
            "BigDecimal"@,
            "Equiv"@,
            "Fractional"@,
            "Integral"@,
        ]@[k],
{
    reveal_strlit("scala/math/");
    reveal_strlit("Ordering");
    reveal_strlit("Numeric");
    reveal_strlit("BigInt");
    reveal_strlit("BigDecimal");
    reveal_strlit("Equiv");
    reveal_strlit("Fractional");
    reveal_strlit("Integral");
    reveal_strlit("scala/math/Ordering");
    reveal_strlit("scala/math/Numeric");
    reveal_strlit("scala/math/BigInt");
    reveal_strlit("scala/math/BigDecimal");
    reveal_strlit("scala/math/Equiv");
    reveal_strlit("scala/math/Fractional");
    reveal_strlit("scala/math/Integral");
    assert(scala_alias(k).1 =~= "scala/math/"@ + scala_alias(k).0);
}

/// No two aliases share a name.
pub proof fn lemma_alias_names_distinct(j: int, k: int)
    requires
        0 <= j < 7,
        0 <= k < 7,
        j != k,
    ensures
        scala_alias(j).0 != scala_alias(k).0,
{
    reveal_strlit("Ordering");
    reveal_strlit("Numeric");
    reveal_strlit("BigInt");
    reveal_strlit("BigDecimal");
    reveal_strlit("Equiv");
    reveal_strlit("Fractional");
    reveal_strlit("Integral");
    let a = scala_alias(j).0;
    let b = scala_alias(k).0;
    if a == b {
        assert(a[0] == b[0]);
        assert(a.len() == b.len());
        if a.len() > 3 {
            assert(a[3] == b[3]);
        }
    }
}

/// Every entry the first `n` aliases add is named after one of them.
proof fn lemma_alias_entries_names(st: SymbolTable, n: nat, i: int)
    requires
        n <= 7,
        0 <= i < alias_entries(st, n).len(),
    ensures
        exists|j: int| 0 <= j < n && #[trigger] scala_alias(j).0 == alias_entries(st, n)[i].0,
    decreases n,
{
    if n > 0 {
        let prev = alias_entries(st, (n - 1) as nat);
        if i < prev.len() {
            lemma_alias_entries_names(st, (n - 1) as nat, i);
            let j = choose|j: int| 0 <= j < n - 1 && #[trigger] scala_alias(j).0 == prev[i].0;
            assert(scala_alias(j).0 == alias_entries(st, n)[i].0);
        } else {
            assert(scala_alias(n - 1).0 == alias_entries(st, n)[i].0);
        }
    }
}

/// Enter the classes the `scala` package object aliases (`Ordering`,
/// `Numeric`, `BigInt`, `BigDecimal`, `Equiv`, `Fractional`, `Integral`)
/// into the compilation's scope under their simple names, unless the scope
/// already has that class under that name. An alias whose class is not in
/// the table is passed over.
pub fn add_scala_aliases(st: &mut SymbolTable)
    requires
        old(st).wf(),
    ensures
        final(st).syms == old(st).syms,
        final(st).same_well_known(*old(st)),
        final(st).scope_view() == old(st).scope_view() + alias_entries(*old(st), 7),
{
    let ghost st0 = *st;
    let mut k: usize = 0;
    while k < 7
        invariant
            k <= 7,
            st.syms == st0.syms,
            st.same_well_known(st0),
            st0.wf(),
            st.scope_view() == st0.scope_view() + alias_entries(st0, k as nat),
        decreases 7 - k,
    {
        let (name, jvm) = scala_alias_at(k);
        assert(st.wf());
        let found = st.find_by_jvm(jvm);
        assert(st.spec_find_by_jvm(jvm@) == st0.spec_find_by_jvm(jvm@)) by {
            assert(st.syms@ == st0.syms@);
            assert forall|i: int| #[trigger] st.class_with_jvm(i, jvm@) == st0.class_with_jvm(i, jvm@) by {}
            lemma_find_same(*st, st0, jvm@, 0);
        }
        if let Some(cls) = found {
            let already = st.is_entered(name, cls) && st.get(cls).kind == SymKind::Class;
            proof {
                let added = alias_entries(st0, k as nat);
                assert(st.scope_view().len() == st.scope@.len());
                assert(st0.scope_view().len() == st0.scope@.len());
                assert(st.entered(name@, cls) == st0.entered(name@, cls)) by {
                    if st.entered(name@, cls) {
                        let i = choose|i: int| 0 <= i < st.scope@.len() && #[trigger] st.scope_view()[i] == (name@, cls);
                        if i >= st0.scope@.len() {
                            let q = i - st0.scope@.len();
                            assert(added[q] == st.scope_view()[i]);
                            lemma_alias_entries_names(st0, k as nat, q);
                            let j = choose|j: int| 0 <= j < k && #[trigger] scala_alias(j).0 == added[q].0;
                            lemma_alias_names_distinct(j, k as int);
                        } else {
                            assert(st0.scope_view()[i] == st.scope_view()[i]);
                        }
                    }
                    if st0.entered(name@, cls) {
                        let i = choose|i: int| 0 <= i < st0.scope@.len() && #[trigger] st0.scope_view()[i] == (name@, cls);
                        assert(st.scope_view()[i] == st0.scope_view()[i]);
                    }
                }
            }
            if !already {
                st.enter_in_current(name, cls);
            }
        }
        assert(st.scope_view() =~= st0.scope_view() + alias_entries(st0, (k + 1) as nat));
        k += 1;
    }
}

proof fn lemma_find_same(a: SymbolTable, b: SymbolTable, jvm: Seq<char>, i: int)
    requires
        a.syms@ == b.syms@,
        a.same_well_known(b),
    ensures
        a.find_jvm_from(jvm, i) == b.find_jvm_from(jvm, i),
    decreases a.syms@.len() - i,
{
    if 0 <= i < a.syms@.len() {
        assert(a.class_with_jvm(i, jvm) == b.class_with_jvm(i, jvm));
        lemma_find_same(a, b, jvm, i + 1);
    }
}

/// Once the aliases have been entered, each alias whose class is in the
/// table resolves to it; and entering them a second time adds nothing, as
/// long as what each alias's JVM name finds is a class (a module found under
/// it is entered again on every pass).
pub proof fn lemma_scala_aliases_idempotent(before: SymbolTable, after: SymbolTable)
    requires
        before.wf(),
        after.syms == before.syms,
        after.same_well_known(before),
        after.scope_view() == before.scope_view() + alias_entries(before, 7),
    ensures
        forall|k: int| 0 <= k < 7 ==> (#[trigger] before.spec_find_by_jvm(scala_alias(k).1) matches Some(cls)
            ==> after.entered(scala_alias(k).0, cls)),
        (forall|k: int| 0 <= k < 7 ==> (#[trigger] before.spec_find_by_jvm(scala_alias(k).1) matches Some(cls)
            ==> before.sym(cls).kind == SymKind::Class)) ==> alias_entries(after, 7) == Seq::<(Seq<char>, SymbolId)>::empty(),
{
    assert forall|k: int| 0 <= k < 7 implies (#[trigger] before.spec_find_by_jvm(scala_alias(k).1) matches Some(cls)
        ==> after.entered(scala_alias(k).0, cls)) by {
        lemma_alias_resolves(before, after, k);
    }
    if forall|k: int| 0 <= k < 7 ==> (#[trigger] before.spec_find_by_jvm(scala_alias(k).1) matches Some(cls)
        ==> before.sym(cls).kind == SymKind::Class) {
        lemma_no_new_entries(before, after, 7);
    }
}

proof fn lemma_no_new_entries(before: SymbolTable, after: SymbolTable, n: nat)
    requires
        before.wf(),
        n <= 7,
        after.syms == before.syms,
        after.same_well_known(before),
        forall|k: int| 0 <= k < 7 ==> (#[trigger] before.spec_find_by_jvm(scala_alias(k).1) matches Some(cls)
            ==> after.entered(scala_alias(k).0, cls)),
        forall|k: int| 0 <= k < 7 ==> (#[trigger] before.spec_find_by_jvm(scala_alias(k).1) matches Some(cls)
            ==> before.sym(cls).kind == SymKind::Class),
    ensures
        alias_entries(after, n) == Seq::<(Seq<char>, SymbolId)>::empty(),
    decreases n,
{
    if n > 0 {
        lemma_no_new_entries(before, after, (n - 1) as nat);
        let jvm = scala_alias(n - 1).1;
        lemma_find_same(after, before, jvm, 0);
        lemma_find_class(before, jvm, 0);
        if let Some(cls) = before.spec_find_by_jvm(jvm) {
            assert(after.entered(scala_alias(n - 1).0, cls));
            assert(after.sym(cls).kind == SymKind::Class);
            assert(alias_entry(after, n - 1) =~= Seq::<(Seq<char>, SymbolId)>::empty());
        }
        assert(alias_entries(after, n) =~= Seq::<(Seq<char>, SymbolId)>::empty());
    }
}

/// What `find_jvm_from` returns is such a class.
proof fn lemma_find_class(st: SymbolTable, jvm: Seq<char>, i: int)
    requires
        st.syms@.len() < u32::MAX,
    ensures
        st.find_jvm_from(jvm, i) matches Some(id) ==> st.class_with_jvm(id.0 as int, jvm),
    decreases st.syms@.len() - i,
{
    if 0 <= i < st.syms@.len() && !st.class_with_jvm(i, jvm) {
        lemma_find_class(st, jvm, i + 1);
    }
}

/// Alias `k` is entered once the entries have been added.
proof fn lemma_alias_resolves(before: SymbolTable, after: SymbolTable, k: int)
    requires
        before.wf(),
        0 <= k < 7,
        after.scope_view() == before.scope_view() + alias_entries(before, 7),
    ensures
        before.spec_find_by_jvm(scala_alias(k).1) matches Some(cls) ==> after.entered(scala_alias(k).0, cls),
{
    if let Some(cls) = before.spec_find_by_jvm(scala_alias(k).1) {
        let name = scala_alias(k).0;
        lemma_find_class(before, scala_alias(k).1, 0);
        assert(before.scope_view().len() == before.scope@.len());
        assert(after.scope_view().len() == after.scope@.len());
        if before.entered(name, cls) && before.sym(cls).kind == SymKind::Class {
            let i = choose|i: int| 0 <= i < before.scope@.len() && #[trigger] before.scope_view()[i] == (name, cls);
            assert(after.scope_view()[i] == before.scope_view()[i]);
            assert(after.scope_view()[i] == (name, cls));
        } else {
            lemma_alias_entries_prefix(before, (k + 1) as nat, 7);
            let pre = alias_entries(before, k as nat);
            let all = alias_entries(before, 7);
            let at = before.scope@.len() + pre.len();
            assert(alias_entry(before, k) == seq![(name, cls)]);
            assert(alias_entries(before, (k + 1) as nat) == pre + seq![(name, cls)]);
            assert(alias_entries(before, (k + 1) as nat)[pre.len() as int] == (name, cls));
            assert(all[pre.len() as int] == (name, cls));
            assert(before.scope_view().len() == before.scope@.len());
            assert(after.scope_view().len() == after.scope@.len());
            assert(after.scope_view()[at as int] == (name, cls));
        }
    }
}

/// The entries of the first `m` aliases begin those of the first `n`.
proof fn lemma_alias_entries_prefix(st: SymbolTable, m: nat, n: nat)
    requires
        m <= n,
    ensures
        alias_entries(st, m).is_prefix_of(alias_entries(st, n)),
    decreases n,
{
    if m < n {
        lemma_alias_entries_prefix(st, m, (n - 1) as nat);
    }
}

/// A symbol just allocated: its name, kind, owner, flags and JVM name as
/// given, and every list empty.
pub open spec fn fresh_symbol(
    s: Symbol,
    name: Seq<char>,
    kind: SymKind,
    owner: Option<SymbolId>,
    flags: u64,
    jvm: Seq<char>,
) -> bool {
    &&& s.name@ == name
    &&& s.kind == kind
    &&& s.owner == owner
    &&& s.flags == flags
    &&& s.jvm_name@ == jvm
    &&& s.members@.len() == 0
    &&& s.params@.len() == 0
    &&& s.paramss@.len() == 0
    &&& s.tparams@.len() == 0
    &&& s.ctor_fields@.len() == 0
    &&& s.bound_hi is None
    &&& s.intrinsic == Intrinsic::Plain
}

/// The type of class `id` applied to no arguments.
pub open spec fn is_bare_class_type(t: Ty, id: SymbolId) -> bool {
    t matches Ty::Class { sym, args } && sym == id && args@.len() == 0
}

/// What allocating one symbol under `owner` does to the rest of the table.
pub open spec fn one_more_under(n: SymbolTable, o: SymbolTable, owner: SymbolId, id: SymbolId) -> bool {
    &&& n.wf()
    &&& n.grows_from(o)
    &&& id.0 == o.syms@.len()
    &&& n.syms@.len() == o.syms@.len() + 1
    &&& n.sym(owner).members@ == o.sym(owner).members@.push(id)
    &&& forall|i: int| 0 <= i < o.syms@.len() && i != owner.0 ==> (#[trigger] n.syms@[i]).members@ == o.syms@[i].members@
}

/// A symbol `name` of this kind and these flags under `owner`, with these
/// parents, whose type is its own class type.
fn class_like(st: &mut SymbolTable, owner: SymbolId, name: &str, jvm: &str, parents: Vec<Ty>, flags: u64) -> (id: SymbolId)
    requires
        old(st).wf(),
        old(st).syms@.len() + 1 < u32::MAX,
        old(st).valid(owner),
        forall|j: int| 0 <= j < parents@.len() ==> old(st).parent_ok(#[trigger] parents@[j]),
    ensures
        one_more_under(*final(st), *old(st), owner, id),
        fresh_symbol(final(st).sym(id), name@, SymKind::Class, Some(owner), flags, jvm@),
        final(st).sym(id).parents@ == parents@,
        is_bare_class_type(final(st).sym(id).ty, id),
{
    let ghost st0 = *st;
    let ghost pv = parents;
    let id = st.new_symbol(name, Some(owner), SymKind::Class, flags, jvm);
    let ghost s1 = *st;
    st.set_parents(id, parents);
    let ghost s2 = *st;
    let t = Ty::Class { sym: id, args: Vec::new() };
    let ghost tg = t;
    st.set_ty(id, t);
    proof {
        lemma_grows_fresh_slot(st0, s1, s2, id, Symbol { parents: pv, ..s1.sym(id) });
        lemma_grows_fresh_slot(st0, s2, *st, id, Symbol { ty: tg, ..s2.sym(id) });
        assert(st.syms@[id.0 as int].ty == tg);
    }
    id
}

/// A final class `name` under `owner`, extending `parents`.
pub fn class(st: &mut SymbolTable, owner: SymbolId, name: &str, jvm: &str, parents: Vec<Ty>) -> (id: SymbolId)
    requires
        old(st).wf(),
        old(st).syms@.len() + 1 < u32::MAX,
        old(st).valid(owner),
        forall|j: int| 0 <= j < parents@.len() ==> old(st).parent_ok(#[trigger] parents@[j]),
    ensures
        one_more_under(*final(st), *old(st), owner, id),
        fresh_symbol(final(st).sym(id), name@, SymKind::Class, Some(owner), FLAG_FINAL, jvm@),
        final(st).sym(id).parents@ == parents@,
        is_bare_class_type(final(st).sym(id).ty, id),
{
    class_like(st, owner, name, jvm, parents, FLAG_FINAL)
}

/// An abstract class `name` under `owner`, extending `parents`.
pub fn abs_class(st: &mut SymbolTable, owner: SymbolId, name: &str, jvm: &str, parents: Vec<Ty>) -> (id: SymbolId)
    requires
        old(st).wf(),
        old(st).syms@.len() + 1 < u32::MAX,
        old(st).valid(owner),
        forall|j: int| 0 <= j < parents@.len() ==> old(st).parent_ok(#[trigger] parents@[j]),
    ensures
        one_more_under(*final(st), *old(st), owner, id),
        fresh_symbol(final(st).sym(id), name@, SymKind::Class, Some(owner), FLAG_ABSTRACT, jvm@),
        final(st).sym(id).parents@ == parents@,
        is_bare_class_type(final(st).sym(id).ty, id),
{
    class_like(st, owner, name, jvm, parents, FLAG_ABSTRACT)
}

/// The flags of an interface: abstract, and a trait.
pub open spec fn iface_flags() -> u64 {
    FLAG_INTERFACE | FLAG_ABSTRACT | FLAG_TRAIT
}

/// A Java interface (a Scala trait) `name` under `owner`, extending `AnyRef`.
pub fn iface(st: &mut SymbolTable, owner: SymbolId, name: &str, jvm: &str) -> (id: SymbolId)
    requires
        old(st).wf(),
        old(st).syms@.len() + 1 < u32::MAX,
        old(st).valid(owner),
    ensures
        one_more_under(*final(st), *old(st), owner, id),
        fresh_symbol(final(st).sym(id), name@, SymKind::Class, Some(owner), iface_flags(), jvm@),
        final(st).sym(id).parents@ == seq![Ty::AnyRef],
        is_bare_class_type(final(st).sym(id).ty, id),
{
    let mut parents: Vec<Ty> = Vec::new();
    parents.push(Ty::AnyRef);
    assert(parents@ == seq![Ty::AnyRef]);
    class_like(st, owner, name, jvm, parents, FLAG_INTERFACE | FLAG_ABSTRACT | FLAG_TRAIT)
}

/// The class a module symbol's singleton type names.
pub open spec fn spec_module_class_of(st: SymbolTable, m: SymbolId) -> Option<SymbolId> {
    match st.sym(m).ty {
        Ty::ModuleRef(c) => Some(c),
        _ => None,
    }
}

/// The class of module `m`, if `m` is a module.
pub fn module_class_of(st: &SymbolTable, m: SymbolId) -> (r: Option<SymbolId>)
    requires
        st.valid(m),
    ensures
        r == spec_module_class_of(*st, m),
{
    match &st.get(m).ty {
        Ty::ModuleRef(c) => Some(*c),
        _ => None,
    }
}

/// A module `name` under `owner`: its class `name$`, final, then the module
/// value itself; both have the class's singleton type.
pub fn module(st: &mut SymbolTable, owner: SymbolId, name: &str, jvm: &str) -> (m: SymbolId)
    requires
        old(st).wf(),
        old(st).syms@.len() + 2 < u32::MAX,
        old(st).valid(owner),
    ensures
        final(st).wf(),
        final(st).grows_from(*old(st)),
        final(st).syms@.len() == old(st).syms@.len() + 2,
        m.0 == old(st).syms@.len() + 1,
        ({
            let cls = SymbolId((m.0 - 1) as u32);
            &&& fresh_symbol(final(st).sym(cls), name@ + "$"@, SymKind::ModuleClass, Some(owner), FLAG_MODULE | FLAG_FINAL, jvm@)
            &&& fresh_symbol(final(st).sym(m), name@, SymKind::Module, Some(owner), FLAG_MODULE, jvm@)
            &&& final(st).sym(cls).ty == Ty::ModuleRef(cls)
            &&& final(st).sym(m).ty == Ty::ModuleRef(cls)
            &&& final(st).sym(cls).parents@.len() == 0
            &&& final(st).sym(m).parents@.len() == 0
            &&& spec_module_class_of(*final(st), m) == Some(cls)
            &&& final(st).sym(owner).members@ == old(st).sym(owner).members@.push(cls).push(m)
        }),
        forall|i: int| 0 <= i < old(st).syms@.len() && i != owner.0 ==> (#[trigger] final(st).syms@[i]).members@
            == old(st).syms@[i].members@,
{
    let ghost st0 = *st;
    let cls_name = name.to_owned().concat("$");
    let cls = st.new_symbol(cls_name.as_str(), Some(owner), SymKind::ModuleClass, FLAG_MODULE | FLAG_FINAL, jvm);
    let ghost s1 = *st;
    let m = st.new_symbol(name, Some(owner), SymKind::Module, FLAG_MODULE, jvm);
    let ghost s2 = *st;
    st.set_ty(m, Ty::ModuleRef(cls));
    let ghost s3 = *st;
    st.set_ty(cls, Ty::ModuleRef(cls));
    proof {
        lemma_grows_trans(st0, s1, s2);
        lemma_grows_fresh_slot(st0, s2, s3, m, Symbol { ty: Ty::ModuleRef(cls), ..s2.sym(m) });
        lemma_grows_fresh_slot(st0, s3, *st, cls, Symbol { ty: Ty::ModuleRef(cls), ..s3.sym(cls) });
        assert(SymbolId((m.0 - 1) as u32) == cls);
        assert(s2.syms@[cls.0 as int].same_except_members(s1.syms@[cls.0 as int]));
    }
    m
}

/// `module`, with its class extending `parent`.
pub fn module_extending(st: &mut SymbolTable, owner: SymbolId, name: &str, jvm: &str, parent: Ty) -> (m: SymbolId)
    requires
        old(st).wf(),
        old(st).syms@.len() + 2 < u32::MAX,
        old(st).valid(owner),
        old(st).parent_ok(parent),
    ensures
        final(st).wf(),
        final(st).grows_from(*old(st)),
        final(st).syms@.len() == old(st).syms@.len() + 2,
        m.0 == old(st).syms@.len() + 1,
        ({
            let cls = SymbolId((m.0 - 1) as u32);
            &&& fresh_symbol(final(st).sym(cls), name@ + "$"@, SymKind::ModuleClass, Some(owner), FLAG_MODULE | FLAG_FINAL, jvm@)
            &&& fresh_symbol(final(st).sym(m), name@, SymKind::Module, Some(owner), FLAG_MODULE, jvm@)
            &&& final(st).sym(cls).ty == Ty::ModuleRef(cls)
            &&& final(st).sym(m).ty == Ty::ModuleRef(cls)
            &&& final(st).sym(cls).parents@ == seq![parent]
            &&& spec_module_class_of(*final(st), m) == Some(cls)
            &&& final(st).sym(owner).members@ == old(st).sym(owner).members@.push(cls).push(m)
        }),
        forall|i: int| 0 <= i < old(st).syms@.len() && i != owner.0 ==> (#[trigger] final(st).syms@[i]).members@
            == old(st).syms@[i].members@,
{
    let ghost st0 = *st;
    let ghost pt = parent;
    let m = module(st, owner, name, jvm);
    let ghost s1 = *st;
    let cls = match module_class_of(st, m) {
        Some(c) => c,
        None => {
            return m;
        },
    };
    let mut parents: Vec<Ty> = Vec::new();
    parents.push(parent);
    let ghost pv = parents;
    st.set_parents(cls, parents);
    proof {
        lemma_grows_fresh_slot(st0, s1, *st, cls, Symbol { parents: pv, ..s1.sym(cls) });
        assert(pv@ == seq![pt]);
    }
    m
}

/// A type parameter `name` of `owner`, standing for itself.
pub fn type_param(st: &mut SymbolTable, owner: SymbolId, name: &str) -> (id: SymbolId)
    requires
        old(st).wf(),
        old(st).syms@.len() + 1 < u32::MAX,
        old(st).valid(owner),
    ensures
        one_more_under(*final(st), *old(st), owner, id),
        fresh_symbol(final(st).sym(id), name@, SymKind::TypeParam, Some(owner), 0, ""@),
        final(st).sym(id).ty == Ty::TypeParam(id),
        final(st).sym(id).parents@.len() == 0,
{
    let ghost st0 = *st;
    let id = st.new_symbol(name, Some(owner), SymKind::TypeParam, 0, "");
    let ghost s1 = *st;
    st.set_ty(id, Ty::TypeParam(id));
    proof {
        lemma_grows_fresh_slot(st0, s1, *st, id, Symbol { ty: Ty::TypeParam(id), ..s1.sym(id) });
    }
    id
}

/// A constructor parameter field `name: ty` of class `owner`.
pub fn ctor_field(st: &mut SymbolTable, owner: SymbolId, name: &str, ty: Ty) -> (id: SymbolId)
    requires
        old(st).wf(),
        old(st).syms@.len() + 1 < u32::MAX,
        old(st).valid(owner),
        ty matches Ty::ModuleRef(c) ==> old(st).valid(c),
    ensures
        one_more_under(*final(st), *old(st), owner, id),
        fresh_symbol(final(st).sym(id), name@, SymKind::Term, Some(owner), FLAG_PARAM, ""@),
        final(st).sym(id).ty == ty,
        final(st).sym(id).parents@.len() == 0,
{
    let ghost st0 = *st;
    let ghost tv = ty;
    let id = st.new_symbol(name, Some(owner), SymKind::Term, FLAG_PARAM, "");
    let ghost s1 = *st;
    st.set_ty(id, ty);
    proof {
        lemma_grows_fresh_slot(st0, s1, *st, id, Symbol { ty: tv, ..s1.sym(id) });
    }
    id
}

/// Mark `id` as declared in Java.
pub fn mark_java(st: &mut SymbolTable, id: SymbolId)
    requires
        old(st).wf(),
        old(st).valid(id),
    ensures
        final(st).wf(),
        final(st).one_slot_changed(*old(st), id, Symbol { flags: old(st).sym(id).flags | FLAG_JAVA, ..old(st).sym(id) }),
{
    let f = st.get(id).flags | FLAG_JAVA;
    st.set_flags(id, f);
}

/// The function type `(arg) => ret`.
pub fn fn1(arg: Ty, ret: Ty) -> (t: Ty)
    ensures
        t matches Ty::Function { params, ret: r } && params@ == seq![arg] && *r == ret,
{
    let mut params: Vec<Ty> = Vec::new();
    params.push(arg);
    Ty::Function { params, ret: Box::new(ret) }
}

/// The function type `(a, b) => ret`.
pub fn fn2(a: Ty, b: Ty, ret: Ty) -> (t: Ty)
    ensures
        t matches Ty::Function { params, ret: r } && params@ == seq![a, b] && *r == ret,
{
    let mut params: Vec<Ty> = Vec::new();
    params.push(a);
    params.push(b);
    Ty::Function { params, ret: Box::new(ret) }
}

/// The function type `(params) => ret`.
pub fn fn_n(params: Vec<Ty>, ret: Ty) -> (t: Ty)
    ensures
        t matches Ty::Function { params: ps, ret: r } && ps@ == params@ && *r == ret,
{
    Ty::Function { params, ret: Box::new(ret) }
}

/// Whether a name ends in `$`, as a module class's does.
pub open spec fn ends_in_dollar(name: Seq<char>) -> bool {
    name.len() > 0 && name.last() == '$'
}

/// The scope entries importing `members` adds: each member not named like a
/// module class, under its own name, in order.
pub open spec fn imported_entries(st: SymbolTable, members: Seq<SymbolId>) -> Seq<(Seq<char>, SymbolId)>
    decreases members.len(),
{
    if members.len() == 0 {
        Seq::empty()
    } else {
        let rest = imported_entries(st, members.drop_last());
        let m = members.last();
        if ends_in_dollar(st.sym(m).name@) {
            rest
        } else {
            rest.push((st.sym(m).name@, m))
        }
    }
}

/// Enter every member of `owner` into the compilation's scope under its
/// own name, but for module classes (`Foo$`).
pub fn import_members(st: &mut SymbolTable, owner: SymbolId)
    requires
        old(st).wf(),
        old(st).valid(owner),
    ensures
        final(st).syms == old(st).syms,
        final(st).same_well_known(*old(st)),
        final(st).scope_view() == old(st).scope_view() + imported_entries(*old(st), old(st).sym(owner).members@),
{
    let ghost st0 = *st;
    let members = st.get(owner).members.clone();
    let ghost ms = members@;
    assert(ms == st0.sym(owner).members@);
    let mut k: usize = 0;
    while k < members.len()
        invariant
            st.syms == st0.syms,
            st.same_well_known(st0),
            st0.wf(),
            ms == members@,
            ms == st0.sym(owner).members@,
            st0.valid(owner),
            k <= ms.len(),
            st.scope_view() == st0.scope_view() + imported_entries(st0, ms.take(k as int)),
        decreases ms.len() - k,
    {
        let m = members[k];
        proof {
            assert(st0.valid(st0.syms@[owner.0 as int].members@[k as int]));
            assert(ms.take(k + 1).drop_last() =~= ms.take(k as int));
        }
        let s = st.get(m);
        let chars = crate::text::chars_of(s.name.as_str());
        let skip = chars.len() > 0 && chars[chars.len() - 1] == '$';
        if !skip {
            let name = s.name.clone();
            st.enter_in_current(name.as_str(), m);
        }
        proof {
            assert(ms.take(k + 1).last() == m);
        }
        k += 1;
    }
    assert(ms.take(ms.len() as int) =~= ms);
}

/// `method`, unless `owner` already has a member named `name`: then that
/// member, the first of the name, is the answer and nothing is added.
pub fn method_absent(st: &mut SymbolTable, owner: SymbolId, name: &str, params: Vec<Ty>, ret: Ty, ic: Intrinsic) -> (id: SymbolId)
    requires
        old(st).wf(),
        old(st).syms@.len() + 1 < u32::MAX,
        old(st).valid(owner),
    ensures
        final(st).wf(),
        ({
            let ms = old(st).sym(owner).members@;
            exists|j: int| 0 <= j < ms.len() && old(st).sym(#[trigger] ms[j]).name@ == name@
        }) ==> {
            let ms = old(st).sym(owner).members@;
            &&& *final(st) == *old(st)
            &&& exists|j: int| 0 <= j < ms.len() && ms[j] == id && old(st).sym(id).name@ == name@ && forall|i: int|
                0 <= i < j ==> old(st).sym(#[trigger] ms[i]).name@ != name@
        },
        !({
            let ms = old(st).sym(owner).members@;
            exists|j: int| 0 <= j < ms.len() && old(st).sym(#[trigger] ms[j]).name@ == name@
        }) ==> {
            &&& final(st).grows_from(*old(st))
            &&& id.0 == old(st).syms@.len()
            &&& final(st).syms@.len() == old(st).syms@.len() + 1
            &&& is_prelude_method(final(st).sym(id), owner, name@, params@, ret, ic)
            &&& final(st).sym(owner).members@ == old(st).sym(owner).members@.push(id)
        },
{
    let want = name.to_owned();
    let ghost ms = st.sym(owner).members@;
    let mut j: usize = 0;
    let n = st.get(owner).members.len();
    while j < n
        invariant
            st.wf(),
            st.valid(owner),
            ms == st.sym(owner).members@,
            n == ms.len(),
            want@ == name@,
            j <= n,
            forall|i: int| 0 <= i < j ==> st.sym(#[trigger] ms[i]).name@ != name@,
        decreases n - j,
    {
        let m = st.get(owner).members[j];
        proof {
            assert(st.valid(ms[j as int]));
        }
        if st.get(m).name == want {
            return m;
        }
        j += 1;
    }
    method(st, owner, name, params, ret, ic)
}

/// Symbol `s` has this name, kind, owner, flags and JVM name.
pub open spec fn sym_is(s: Symbol, name: Seq<char>, kind: SymKind, owner: SymbolId, flags: u64, jvm: Seq<char>) -> bool {
    &&& s.name@ == name
    &&& s.kind == kind
    &&& s.owner == Some(owner)
    &&& s.flags == flags
    &&& s.jvm_name@ == jvm
}

/// An abstract method `name` of `owner` with no JVM name, whose type is
/// `(params) => ret` in one clause, or `=> ret` with no clause when
/// `params` is empty.
pub open spec fn abstract_method(s: Symbol, owner: SymbolId, name: Seq<char>, params: Seq<Ty>, ret: Ty) -> bool {
    &&& sym_is(s, name, SymKind::Method, owner, FLAG_ABSTRACT, ""@)
    &&& s.ty matches Ty::Method { paramss, ret: r } && *r == ret && paramss@.map_values(|c: Vec<Ty>| c@) == clauses_of(
        params,
    )
}

/// An abstract method of one clause of these parameter types.
fn abstract_method_sym(st: &mut SymbolTable, owner: SymbolId, name: &str, params: Vec<Ty>, ret: Ty) -> (id: SymbolId)
    requires
        old(st).wf(),
        old(st).syms@.len() + 1 < u32::MAX,
        old(st).valid(owner),
    ensures
        one_more_under(*final(st), *old(st), owner, id),
        abstract_method(final(st).sym(id), owner, name@, params@, ret),
        final(st).sym(id).tparams@.len() == 0,
{
    let ghost st0 = *st;
    let ghost pv = params@;
    let ghost rv = ret;
    let id = st.new_symbol(name, Some(owner), SymKind::Method, FLAG_ABSTRACT, "");
    let ghost s1 = *st;
    let paramss: Vec<Vec<Ty>> = if params.len() == 0 {
        Vec::new()
    } else {
        vec![params]
    };
    assert(paramss@.map_values(|c: Vec<Ty>| c@) =~= clauses_of(pv));
    let t = Ty::Method { paramss, ret: Box::new(ret) };
    let ghost tv = t;
    st.set_ty(id, t);
    proof {
        lemma_grows_fresh_slot(st0, s1, *st, id, Symbol { ty: tv, ..s1.sym(id) });
        reveal_strlit("");
    }
    id
}

/// A package `name` under `owner`.
pub fn package(st: &mut SymbolTable, owner: SymbolId, name: &str, jvm: &str) -> (id: SymbolId)
    requires
        old(st).wf(),
        old(st).syms@.len() + 1 < u32::MAX,
        old(st).valid(owner),
    ensures
        one_more_under(*final(st), *old(st), owner, id),
        fresh_symbol(final(st).sym(id), name@, SymKind::Package, Some(owner), FLAG_PACKAGE, jvm@),
{
    st.new_symbol(name, Some(owner), SymKind::Package, FLAG_PACKAGE, jvm)
}

/// The flags of a Java interface the prelude declares.
pub open spec fn java_iface_flags() -> u64 {
    iface_flags() | FLAG_JAVA
}


/// Slot `l + k`.
pub open spec fn slot(l: int, k: int) -> SymbolId {
    SymbolId((l + k) as u32)
}

/// The eleven symbols `add_java_sam` declares, from slot `l` on.
pub open spec fn java_sam_installed(n: SymbolTable, l: int, java: SymbolId, java_lang: SymbolId) -> bool {
    &&& sym_is(n.sym(slot(l, 0)), "Runnable"@, SymKind::Class, java_lang, java_iface_flags(), "java/lang/Runnable"@)
    &&& abstract_method(n.sym(slot(l, 1)), slot(l, 0), "run"@, Seq::empty(), Ty::Unit)
    &&& sym_is(n.sym(slot(l, 2)), "util"@, SymKind::Package, java, FLAG_PACKAGE, "java/util"@)
    &&& sym_is(n.sym(slot(l, 3)), "Comparator"@, SymKind::Class, slot(l, 2), java_iface_flags(), "java/util/Comparator"@)
    &&& n.sym(slot(l, 3)).tparams@ == seq![slot(l, 4)]
    &&& sym_is(n.sym(slot(l, 4)), "T"@, SymKind::TypeParam, slot(l, 3), 0, ""@)
    &&& abstract_method(
        n.sym(slot(l, 5)),
        slot(l, 3),
        "compare"@,
        seq![Ty::TypeParam(slot(l, 4)), Ty::TypeParam(slot(l, 4))],
        Ty::Prim(Prim::Int),
    )
    &&& sym_is(n.sym(slot(l, 6)), "function"@, SymKind::Package, slot(l, 2), FLAG_PACKAGE, "java/util/function"@)
    &&& sym_is(n.sym(slot(l, 7)), "Function"@, SymKind::Class, slot(l, 6), java_iface_flags(), "java/util/function/Function"@)
    &&& n.sym(slot(l, 7)).tparams@ == seq![slot(l, 8), slot(l, 9)]
    &&& sym_is(n.sym(slot(l, 8)), "T"@, SymKind::TypeParam, slot(l, 7), 0, ""@)
    &&& sym_is(n.sym(slot(l, 9)), "R"@, SymKind::TypeParam, slot(l, 7), 0, ""@)
    &&& abstract_method(n.sym(slot(l, 10)), slot(l, 7), "apply"@, seq![Ty::TypeParam(slot(l, 8))], Ty::TypeParam(slot(l, 9)))
}

/// The Java SAM types: `java.lang.Runnable`, `java.util.Comparator[T]` and
/// `java.util.function.Function[T, R]`, each with its one abstract method,
/// under a new `java.util` (and `java.util.function`) package.
pub fn add_java_sam(st: &mut SymbolTable, java: SymbolId, java_lang: SymbolId)
    requires
        old(st).wf(),
        old(st).syms@.len() + 11 < u32::MAX,
        old(st).valid(java),
        old(st).valid(java_lang),
    ensures
        final(st).wf(),
        final(st).grows_from(*old(st)),
        final(st).syms@.len() == old(st).syms@.len() + 11,
        java_sam_installed(*final(st), old(st).syms@.len() as int, java, java_lang),
{
    let ghost st0 = *st;
    let runnable = iface(st, java_lang, "Runnable", "java/lang/Runnable");
    let ghost s1 = *st;
    mark_java(st, runnable);
    let ghost s2 = *st;
    proof {
        lemma_grows_fresh_slot(st0, s1, s2, runnable, Symbol { flags: s1.sym(runnable).flags | FLAG_JAVA, ..s1.sym(runnable) });
    }
    let run = abstract_method_sym(st, runnable, "run", Vec::new(), Ty::Unit);
    let ghost s3 = *st;
    let util = package(st, java, "util", "java/util");
    let ghost s4 = *st;
    let comparator = iface(st, util, "Comparator", "java/util/Comparator");
    let ghost s5 = *st;
    mark_java(st, comparator);
    let ghost s6 = *st;
    proof {
        lemma_grows_fresh_slot(s4, s5, s6, comparator, Symbol { flags: s5.sym(comparator).flags | FLAG_JAVA, ..s5.sym(comparator) });
    }
    let ct = type_param(st, comparator, "T");
    let ghost s7 = *st;
    let ctv = vec![ct];
    let ghost ctg = ctv;
    st.set_tparams(comparator, ctv);
    let ghost s8 = *st;
    proof {
        lemma_grows_trans(s4, s6, s7);
        lemma_grows_fresh_slot(s4, s7, s8, comparator, Symbol { tparams: ctg, ..s7.sym(comparator) });
    }
    let compare = abstract_method_sym(st, comparator, "compare", vec![Ty::TypeParam(ct), Ty::TypeParam(ct)], Ty::Prim(Prim::Int));
    let ghost s9 = *st;
    let fn_pkg = package(st, util, "function", "java/util/function");
    let ghost s10 = *st;
    let jfun = iface(st, fn_pkg, "Function", "java/util/function/Function");
    let ghost s11 = *st;
    mark_java(st, jfun);
    let ghost s12 = *st;
    proof {
        lemma_grows_fresh_slot(s10, s11, s12, jfun, Symbol { flags: s11.sym(jfun).flags | FLAG_JAVA, ..s11.sym(jfun) });
    }
    let ft = type_param(st, jfun, "T");
    let ghost s13 = *st;
    let fr = type_param(st, jfun, "R");
    let ghost s14 = *st;
    let fv = vec![ft, fr];
    let ghost fg = fv;
    st.set_tparams(jfun, fv);
    let ghost s15 = *st;
    proof {
        lemma_grows_trans(s12, s13, s14);
        lemma_grows_trans(s10, s12, s14);
        lemma_grows_fresh_slot(s10, s14, s15, jfun, Symbol { tparams: fg, ..s14.sym(jfun) });
    }
    let apply_params = vec![Ty::TypeParam(ft)];
    assert(apply_params@ == seq![Ty::TypeParam(ft)]);
    let apply = abstract_method_sym(st, jfun, "apply", apply_params, Ty::TypeParam(fr));
    proof {
        reveal_strlit("");
        lemma_grows_trans(st0, s2, s3);
        lemma_grows_trans(st0, s3, s4);
        lemma_grows_trans(st0, s4, s8);
        lemma_grows_trans(st0, s8, s9);
        lemma_grows_trans(st0, s9, s10);
        lemma_grows_trans(st0, s10, s15);
        lemma_grows_trans(st0, s15, *st);
        let l = st0.syms@.len() as int;
        assert(runnable.0 == l && run.0 == l + 1 && util.0 == l + 2 && comparator.0 == l + 3 && ct.0 == l + 4);
        assert(compare.0 == l + 5 && fn_pkg.0 == l + 6 && jfun.0 == l + 7 && ft.0 == l + 8 && fr.0 == l + 9 && apply.0 == l + 10);
        // each symbol keeps what it was given through the steps after it
        assert(st.syms@[runnable.0 as int].same_except_members(s2.syms@[runnable.0 as int]));
        assert(st.syms@[run.0 as int].same_except_members(s3.syms@[run.0 as int]));
        assert(st.syms@[util.0 as int].same_except_members(s4.syms@[util.0 as int]));
        assert(st.syms@[comparator.0 as int].same_except_members(s8.syms@[comparator.0 as int]));
        assert(s8.syms@[ct.0 as int] == s7.syms@[ct.0 as int]);
        assert(st.syms@[ct.0 as int].same_except_members(s8.syms@[ct.0 as int]));
        assert(st.syms@[compare.0 as int].same_except_members(s9.syms@[compare.0 as int]));
        assert(st.syms@[fn_pkg.0 as int].same_except_members(s10.syms@[fn_pkg.0 as int]));
        assert(st.syms@[jfun.0 as int].same_except_members(s15.syms@[jfun.0 as int]));
        assert(s14.syms@[ft.0 as int].same_except_members(s13.syms@[ft.0 as int]));
        assert(s15.syms@[ft.0 as int] == s14.syms@[ft.0 as int]);
        assert(s15.syms@[fr.0 as int] == s14.syms@[fr.0 as int]);
        assert(st.syms@[ft.0 as int].same_except_members(s15.syms@[ft.0 as int]));
        assert(st.syms@[fr.0 as int].same_except_members(s15.syms@[fr.0 as int]));
        assert(ctg@ == seq![ct]);
        assert(fg@ == seq![ft, fr]);
        assert(runnable == slot(l, 0) && run == slot(l, 1) && util == slot(l, 2) && comparator == slot(l, 3));
        assert(ct == slot(l, 4) && compare == slot(l, 5) && fn_pkg == slot(l, 6) && jfun == slot(l, 7));
        assert(ft == slot(l, 8) && fr == slot(l, 9) && apply == slot(l, 10));
        assert(sym_is(st.sym(runnable), "Runnable"@, SymKind::Class, java_lang, java_iface_flags(), "java/lang/Runnable"@));
        assert(abstract_method(st.sym(run), runnable, "run"@, Seq::empty(), Ty::Unit));
        assert(sym_is(st.sym(util), "util"@, SymKind::Package, java, FLAG_PACKAGE, "java/util"@));
        assert(sym_is(st.sym(comparator), "Comparator"@, SymKind::Class, util, java_iface_flags(), "java/util/Comparator"@));
        assert(st.sym(comparator).tparams@ == seq![ct]);
        assert(sym_is(st.sym(ct), "T"@, SymKind::TypeParam, comparator, 0, ""@));
        assert(abstract_method(st.sym(compare), comparator, "compare"@, seq![Ty::TypeParam(ct), Ty::TypeParam(ct)], Ty::Prim(Prim::Int)));
        assert(sym_is(st.sym(fn_pkg), "function"@, SymKind::Package, util, FLAG_PACKAGE, "java/util/function"@));
        assert(sym_is(st.sym(jfun), "Function"@, SymKind::Class, fn_pkg, java_iface_flags(), "java/util/function/Function"@));
        assert(st.sym(jfun).tparams@ == seq![ft, fr]);
        assert(sym_is(st.sym(ft), "T"@, SymKind::TypeParam, jfun, 0, ""@));
        assert(sym_is(st.sym(fr), "R"@, SymKind::TypeParam, jfun, 0, ""@));
        assert(abstract_method(st.sym(apply), jfun, "apply"@, seq![Ty::TypeParam(ft)], Ty::TypeParam(fr)));
    }
}

/// The type of class `id`, applied to no arguments.
pub fn class_ty(id: SymbolId) -> (t: Ty)
    ensures
        is_bare_class_type(t, id),
{
    Ty::Class { sym: id, args: Vec::new() }
}

/// A symbol's parents are exactly the bare class type of `c`.
pub open spec fn extends_only(s: Symbol, c: SymbolId) -> bool {
    s.parents@.len() == 1 && is_bare_class_type(s.parents@[0], c)
}

/// The annotations `scala` itself declares, extending `StaticAnnotation`.
pub open spec fn scala_annotation(k: int) -> (Seq<char>, Seq<char>) {
    if k == 0 {
        ("inline"@, "scala/inline"@)
    } else if k == 1 {
        ("noinline"@, "scala/noinline"@)
    } else if k == 2 {
        ("volatile"@, "scala/volatile"@)
    } else if k == 3 {
        ("transient"@, "scala/transient"@)
    } else {
        ("native"@, "scala/native"@)
    }
}

fn scala_annotation_at(k: usize) -> (r: (&'static str, &'static str))
    requires
        k < 5,
    ensures
        (r.0@, r.1@) == scala_annotation(k as int),
{
    match k {
        0 => ("inline", "scala/inline"),
        1 => ("noinline", "scala/noinline"),
        2 => ("volatile", "scala/volatile"),
        3 => ("transient", "scala/transient"),
        _ => ("native", "scala/native"),
    }
}

/// The fourteen symbols `add_annotation_pkg` declares, from slot `l` on.
pub open spec fn annotation_pkg_installed(n: SymbolTable, l: int, scala: SymbolId) -> bool {
    let annotation = slot(l, 1);
    let static_annot = slot(l, 3);
    &&& sym_is(n.sym(slot(l, 0)), "annotation"@, SymKind::Package, scala, FLAG_PACKAGE, "scala/annotation"@)
    &&& sym_is(n.sym(annotation), "Annotation"@, SymKind::Class, slot(l, 0), FLAG_ABSTRACT, "scala/annotation/Annotation"@)
    &&& n.sym(annotation).parents@ == seq![Ty::AnyRef]
    &&& is_bare_class_type(n.sym(annotation).ty, annotation)
    &&& sym_is(n.sym(slot(l, 2)), "<init>"@, SymKind::Method, annotation, FLAG_FINAL, ""@)
    &&& (n.sym(slot(l, 2)).ty matches Ty::Method { paramss, ret } && paramss@.len() == 0 && is_bare_class_type(*ret, annotation))
    &&& sym_is(n.sym(static_annot), "StaticAnnotation"@, SymKind::Class, slot(l, 0), iface_flags(), "scala/annotation/StaticAnnotation"@)
    &&& extends_only(n.sym(static_annot), annotation)
    &&& sym_is(n.sym(slot(l, 4)), "switch"@, SymKind::Class, slot(l, 0), FLAG_ABSTRACT, "scala/annotation/switch"@)
    &&& extends_only(n.sym(slot(l, 4)), static_annot)
    &&& sym_is(n.sym(slot(l, 5)), "implicitNotFound"@, SymKind::Class, slot(l, 0), FLAG_FINAL, "scala/annotation/implicitNotFound"@)
    &&& extends_only(n.sym(slot(l, 5)), static_annot)
    &&& n.sym(slot(l, 5)).ctor_fields@ == seq![slot(l, 6)]
    &&& sym_is(n.sym(slot(l, 6)), "msg"@, SymKind::Term, slot(l, 5), FLAG_PARAM, ""@)
    &&& n.sym(slot(l, 6)).ty == Ty::Str
    &&& sym_is(n.sym(slot(l, 7)), "unchecked"@, SymKind::Package, slot(l, 0), FLAG_PACKAGE, "scala/annotation/unchecked"@)
    &&& sym_is(
        n.sym(slot(l, 8)),
        "uncheckedVariance"@,
        SymKind::Class,
        slot(l, 7),
        FLAG_ABSTRACT,
        "scala/annotation/unchecked/uncheckedVariance"@,
    )
    &&& extends_only(n.sym(slot(l, 8)), static_annot)
    &&& forall|k: int| 0 <= k < 5 ==> {
        let (name, jvm) = #[trigger] scala_annotation(k);
        &&& sym_is(n.sym(slot(l, 9 + k)), name, SymKind::Class, scala, FLAG_ABSTRACT, jvm)
        &&& extends_only(n.sym(slot(l, 9 + k)), static_annot)
    }
}

/// The `scala.annotation` package: `Annotation` with its constructor,
/// `StaticAnnotation` (a trait extending it), `switch`,
/// `implicitNotFound(msg: String)` and `unchecked.uncheckedVariance`; and in
/// `scala` itself `inline`, `noinline`, `volatile`, `transient` and
/// `native`, all static annotations.
#[verifier::spinoff_prover]
#[verifier::rlimit(80)]
pub fn add_annotation_pkg(st: &mut SymbolTable)
    requires
        old(st).wf(),
        old(st).scala_pkg is Some,
        old(st).syms@.len() + 14 < u32::MAX,
    ensures
        final(st).wf(),
        final(st).grows_from(*old(st)),
        final(st).syms@.len() == old(st).syms@.len() + 14,
        annotation_pkg_installed(*final(st), old(st).syms@.len() as int, old(st).scala_pkg.unwrap()),
{
    let ghost st0 = *st;
    let ghost l = st0.syms@.len() as int;
    let scala = st.scala_pkg.unwrap();
    let pkg = package(st, scala, "annotation", "scala/annotation");
    let ghost s1 = *st;
    let ap = vec![Ty::AnyRef];
    assert(ap@ == seq![Ty::AnyRef]);
    let annotation = abs_class(st, pkg, "Annotation", "scala/annotation/Annotation", ap);
    let ghost s2 = *st;
    let init_ret = class_ty(annotation);
    let ghost init_ret_g = init_ret;
    let no_params: Vec<Ty> = Vec::new();
    let ghost np = no_params@;
    let init = method(st, annotation, "<init>", no_params, init_ret, Intrinsic::Plain);
    proof {
        assert(np.len() == 0);
        assert(clauses_of(np) =~= Seq::<Seq<Ty>>::empty());
        match st.sym(init).ty {
            Ty::Method { paramss, ret } => {
                assert(paramss@.map_values(|c: Vec<Ty>| c@).len() == 0);
                assert(*ret == init_ret_g);
            },
            _ => {},
        }
    }
    let ghost s3 = *st;
    let static_annot = iface(st, pkg, "StaticAnnotation", "scala/annotation/StaticAnnotation");
    let ghost s4 = *st;
    let t0 = class_ty(annotation);
    let sp = vec![t0];
    assert(sp@.len() == 1 && is_bare_class_type(sp@[0], annotation));
    let ghost spg = sp;
    st.set_parents(static_annot, sp);
    let ghost s5 = *st;
    proof {
        lemma_grows_fresh_slot(s3, s4, s5, static_annot, Symbol { parents: spg, ..s4.sym(static_annot) });
    }
    let t1 = class_ty(static_annot);
    let p1 = vec![t1];
    assert(p1@.len() == 1 && is_bare_class_type(p1@[0], static_annot));
    let switch = abs_class(st, pkg, "switch", "scala/annotation/switch", p1);
    let ghost s6 = *st;
    let t2 = class_ty(static_annot);
    let p2 = vec![t2];
    assert(p2@.len() == 1 && is_bare_class_type(p2@[0], static_annot));
    let inf = class(st, pkg, "implicitNotFound", "scala/annotation/implicitNotFound", p2);
    let ghost s7 = *st;
    let inf_msg = st.new_symbol("msg", Some(inf), SymKind::Term, FLAG_PARAM, "");
    let ghost s8 = *st;
    st.set_ty(inf_msg, Ty::Str);
    let ghost s9 = *st;
    let fields = vec![inf_msg];
    let ghost fg = fields;
    st.set_ctor_fields(inf, fields);
    let ghost s10 = *st;
    proof {
        lemma_grows_fresh_slot(s7, s8, s9, inf_msg, Symbol { ty: Ty::Str, ..s8.sym(inf_msg) });
        lemma_grows_trans(s6, s7, s9);
        lemma_grows_fresh_slot(s6, s9, s10, inf, Symbol { ctor_fields: fg, ..s9.sym(inf) });
    }
    let unc_pkg = package(st, pkg, "unchecked", "scala/annotation/unchecked");
    let ghost s11 = *st;
    let t3 = class_ty(static_annot);
    let p3 = vec![t3];
    assert(p3@.len() == 1 && is_bare_class_type(p3@[0], static_annot));
    let unchecked_variance = abs_class(
        st,
        unc_pkg,
        "uncheckedVariance",
        "scala/annotation/unchecked/uncheckedVariance",
        p3,
    );
    let ghost s12 = *st;
    proof {
        lemma_grows_trans(st0, s1, s2);
        lemma_grows_trans(st0, s2, s3);
        lemma_grows_trans(st0, s3, s5);
        lemma_grows_trans(st0, s5, s6);
        lemma_grows_trans(st0, s6, s10);
        lemma_grows_trans(st0, s10, s11);
        lemma_grows_trans(st0, s11, s12);
        assert(pkg == slot(l, 0) && annotation == slot(l, 1) && init == slot(l, 2) && static_annot == slot(l, 3));
        assert(switch == slot(l, 4) && inf == slot(l, 5) && inf_msg == slot(l, 6) && unc_pkg == slot(l, 7));
        assert(unchecked_variance == slot(l, 8));
    }
    let mut k: usize = 0;
    while k < 5
        invariant
            st0.wf(),
            l == st0.syms@.len(),
            l + 14 < u32::MAX,
            st0.scala_pkg == Some(scala),
            static_annot == slot(l, 3),
            k <= 5,
            st.wf(),
            st.grows_from(s12),
            s12.grows_from(st0),
            s12.syms@.len() == l + 9,
            st.syms@.len() == l + 9 + k,
            forall|j: int| 0 <= j < k ==> {
                let (name, jvm) = #[trigger] scala_annotation(j);
                &&& sym_is(st.sym(slot(l, 9 + j)), name, SymKind::Class, scala, FLAG_ABSTRACT, jvm)
                &&& extends_only(st.sym(slot(l, 9 + j)), static_annot)
            },
        decreases 5 - k,
    {
        let (name, jvm) = scala_annotation_at(k);
        let ghost before = *st;
        let t = class_ty(static_annot);
        let ps = vec![t];
        assert(ps@.len() == 1 && is_bare_class_type(ps@[0], static_annot));
        let id = abs_class(st, scala, name, jvm, ps);
        let ghost k0 = k as int;
        k += 1;
        proof {
            lemma_grows_trans(s12, before, *st);
            assert(id == slot(l, 9 + k0));
            assert(sym_is(st.sym(id), scala_annotation(k0).0, SymKind::Class, scala, FLAG_ABSTRACT, scala_annotation(k0).1));
            assert(extends_only(st.sym(id), static_annot));
            assert forall|j: int| 0 <= j < k implies {
                let (nm, jv) = #[trigger] scala_annotation(j);
                &&& sym_is(st.sym(slot(l, 9 + j)), nm, SymKind::Class, scala, FLAG_ABSTRACT, jv)
                &&& extends_only(st.sym(slot(l, 9 + j)), static_annot)
            } by {
                if j < k0 {
                    let x = slot(l, 9 + j);
                    assert(st.syms@[x.0 as int].same_except_members(before.syms@[x.0 as int]));
                    let _ = scala_annotation(j);
                }
            }
        }
    }
    proof {
        reveal_strlit("");
        lemma_grows_trans(st0, s12, *st);
        let sg = *st;
        assert(sg.syms@[pkg.0 as int].same_except_members(s1.syms@[pkg.0 as int]));
        assert(sg.syms@[annotation.0 as int].same_except_members(s2.syms@[annotation.0 as int]));
        assert(sg.syms@[init.0 as int].same_except_members(s3.syms@[init.0 as int]));
        assert(sg.syms@[static_annot.0 as int].same_except_members(s5.syms@[static_annot.0 as int]));
        assert(sg.syms@[switch.0 as int].same_except_members(s6.syms@[switch.0 as int]));
        assert(sg.syms@[inf.0 as int].same_except_members(s10.syms@[inf.0 as int]));
        assert(s9.syms@[inf.0 as int].same_except_members(s7.syms@[inf.0 as int]));
        assert(sg.syms@[inf_msg.0 as int].same_except_members(s10.syms@[inf_msg.0 as int]));
        assert(s10.syms@[inf_msg.0 as int] == s9.syms@[inf_msg.0 as int]);
        assert(sg.syms@[unc_pkg.0 as int].same_except_members(s11.syms@[unc_pkg.0 as int]));
        assert(sg.syms@[unchecked_variance.0 as int].same_except_members(s12.syms@[unchecked_variance.0 as int]));
        assert(spg@.len() == 1);
        assert(fg@ == seq![inf_msg]);
        let n = sg;
        assert(sym_is(n.sym(slot(l, 0)), "annotation"@, SymKind::Package, scala, FLAG_PACKAGE, "scala/annotation"@));
        assert(sym_is(n.sym(annotation), "Annotation"@, SymKind::Class, slot(l, 0), FLAG_ABSTRACT, "scala/annotation/Annotation"@));
        assert(n.sym(annotation).parents@ == seq![Ty::AnyRef]);
        assert(is_bare_class_type(n.sym(annotation).ty, annotation));
        assert(n.sym(init).jvm_name@ =~= ""@);
        assert(sym_is(n.sym(slot(l, 2)), "<init>"@, SymKind::Method, annotation, FLAG_FINAL, ""@));
        assert(n.sym(slot(l, 2)).ty matches Ty::Method { paramss, ret } && paramss@.len() == 0 && is_bare_class_type(*ret, annotation));
        assert(sym_is(n.sym(static_annot), "StaticAnnotation"@, SymKind::Class, slot(l, 0), iface_flags(), "scala/annotation/StaticAnnotation"@));
        assert(extends_only(n.sym(static_annot), annotation));
        assert(sym_is(n.sym(slot(l, 4)), "switch"@, SymKind::Class, slot(l, 0), FLAG_ABSTRACT, "scala/annotation/switch"@));
        assert(extends_only(n.sym(slot(l, 4)), static_annot));
        assert(sym_is(n.sym(slot(l, 5)), "implicitNotFound"@, SymKind::Class, slot(l, 0), FLAG_FINAL, "scala/annotation/implicitNotFound"@));
        assert(extends_only(n.sym(slot(l, 5)), static_annot));
        assert(n.sym(slot(l, 5)).ctor_fields@ == seq![slot(l, 6)]);
        assert(sym_is(n.sym(slot(l, 6)), "msg"@, SymKind::Term, slot(l, 5), FLAG_PARAM, ""@));
        assert(n.sym(slot(l, 6)).ty == Ty::Str);
        assert(sym_is(n.sym(slot(l, 7)), "unchecked"@, SymKind::Package, slot(l, 0), FLAG_PACKAGE, "scala/annotation/unchecked"@));
        assert(extends_only(n.sym(slot(l, 8)), static_annot));
        assert(sym_is(
            n.sym(slot(l, 8)),
            "uncheckedVariance"@,
            SymKind::Class,
            slot(l, 7),
            FLAG_ABSTRACT,
            "scala/annotation/unchecked/uncheckedVariance"@,
        ));
        assert(k == 5);
        assert forall|j: int| 0 <= j < 5 implies {
            let (name, jvm) = #[trigger] scala_annotation(j);
            &&& sym_is(n.sym(slot(l, 9 + j)), name, SymKind::Class, scala, FLAG_ABSTRACT, jvm)
            &&& extends_only(n.sym(slot(l, 9 + j)), static_annot)
        } by {
            assert(j < k);
            let _ = scala_annotation(j);
        }
        assert(annotation_pkg_installed(n, l, scala));
    }
}

} // verus!
