//! The conversion and aggregation members of `ArrayOps` that the library
//! reaches through `ArraySeq` (`toList`, `mkString`, `sum`, `min`, `maxBy`,
//! ...), the `Numeric` type class with its `Int`, `Long` and `Double`
//! instances, and the members `ArrayOps` has as extension methods of its own.
use vstd::prelude::*;
use vstd::string::*;

use crate::prelude::{
    fn1, fn2, fresh_symbol, iface, iface_flags, is_fn_type, method, module, slot, sym_is, type_param, value_param,
};
use crate::prelude_arrayops2::{
    is_ops_member_with, ops_method, same_but_members_parents, OpsParams,
    applied, has_class_parent, is_applied, is_plain_member, kept, lemma_shaped_kept, names_class, no_symbol, shaped_member,
    two_clause_method, tys1, tys2, MemberShape,
};
use crate::prelude_chainusing::is_type_param;
use crate::symbols::{
    lemma_find_valid, lemma_grows_fresh_slot, lemma_grows_trans, Intrinsic, Prim, SymKind, Symbol, SymbolId, SymbolTable, Ty, FLAG_FINAL,
    FLAG_IMPLICIT, FLAG_MODULE, FLAG_PARAM,
};
use crate::text::str_eq;

verus! {

/// A final method of `owner` named `name`, with no intrinsic and no JVM
/// name, no type parameter, and the one parameter `ev` in a clause of its
/// own, implicit, of type `tc[A]`, answering `A`.
pub open spec fn implicit_only_member(n: SymbolTable, m: SymbolId, owner: SymbolId, name: Seq<char>, ev_name: Seq<char>, tc: SymbolId, a: SymbolId) -> bool {
    let s = n.sym(m);
    let ev = slot(m.0 as int, 1);
    &&& sym_is(s, name, SymKind::Method, owner, FLAG_FINAL, ""@)
    &&& s.intrinsic == Intrinsic::Plain
    &&& s.tparams@.len() == 0
    &&& s.params@ == seq![ev]
    &&& s.paramss@.len() == 1 && s.paramss@[0]@ == seq![ev]
    &&& s.members@ == seq![ev]
    &&& (s.ty matches Ty::Method { paramss, ret } && paramss@.len() == 1 && paramss@[0]@.len() == 1 && is_applied(
        paramss@[0]@[0],
        tc,
        seq![Ty::TypeParam(a)],
    ) && *ret == Ty::TypeParam(a))
    &&& fresh_symbol(n.sym(ev), ev_name, SymKind::Term, Some(m), FLAG_PARAM | FLAG_IMPLICIT, ""@)
    &&& is_applied(n.sym(ev).ty, tc, seq![Ty::TypeParam(a)])
}

/// `name(implicit ev_name: tc[A]): A` on `owner`: the method and then its
/// parameter.
fn add_implicit_only(st: &mut SymbolTable, owner: SymbolId, name: &str, ev_name: &str, tc: SymbolId, a: SymbolId) -> (m: SymbolId)
    requires
        old(st).wf(),
        old(st).valid(owner),
        old(st).syms@.len() + 2 < u32::MAX,
    ensures
        final(st).wf(),
        final(st).grows_from(*old(st)),
        final(st).syms@.len() == old(st).syms@.len() + 2,
        m == slot(old(st).syms@.len() as int, 0),
        final(st).sym(owner).members@ == old(st).sym(owner).members@.push(m),
        forall|i: int| 0 <= i < old(st).syms@.len() && i != owner.0 ==> (#[trigger] final(st).syms@[i]).members@ == old(st).syms@[i].members@,
        implicit_only_member(*final(st), m, owner, name@, ev_name@, tc, a),
{
    let ghost st0 = *st;
    let m = method(st, owner, name, Vec::new(), Ty::Unit, Intrinsic::Plain);
    let ghost s1 = *st;
    let ev = value_param(st, m, ev_name, FLAG_PARAM | FLAG_IMPLICIT, applied(tc, tys1(Ty::TypeParam(a))));
    let ghost s2 = *st;
    let pv = vec![ev];
    let ghost pg = pv;
    st.set_params(m, pv);
    let ghost s3 = *st;
    let c0 = vec![ev];
    let ghost c0g = c0@;
    let pss = vec![c0];
    let ghost pssg = pss;
    st.set_paramss(m, pss);
    let ghost s4 = *st;
    let ty = Ty::Method { paramss: vec![tys1(applied(tc, tys1(Ty::TypeParam(a))))], ret: Box::new(Ty::TypeParam(a)) };
    let ghost tyg = ty;
    st.set_ty(m, ty);
    proof {
        lemma_grows_trans(st0, s1, s2);
        lemma_grows_fresh_slot(st0, s2, s3, m, Symbol { params: pg, ..s2.sym(m) });
        lemma_grows_fresh_slot(st0, s3, s4, m, Symbol { paramss: pssg, ..s3.sym(m) });
        lemma_grows_fresh_slot(st0, s4, *st, m, Symbol { ty: tyg, ..s4.sym(m) });
        reveal_strlit("");
        assert(pg@ == seq![ev] && c0g == seq![ev]);
        assert(st.syms@[ev.0 as int].same_except_members(s2.syms@[ev.0 as int]));
        assert(st.sym(m).members@ =~= seq![ev]);
        assert(st.sym(m).jvm_name@ =~= ""@);
    }
    m
}

/// `name(implicit num: Numeric[A]): A` on `aops`, with `numeric` the
/// class `Numeric`.
fn add_numeric_fold(st: &mut SymbolTable, aops: SymbolId, a: SymbolId, numeric: SymbolId, name: &str)
    requires
        old(st).wf(),
        old(st).valid(aops),
        old(st).syms@.len() + 2 < u32::MAX,
    ensures
        final(st).wf(),
        final(st).grows_from(*old(st)),
        final(st).syms@.len() == old(st).syms@.len() + 2,
        final(st).sym(aops).members@ == old(st).sym(aops).members@.push(slot(old(st).syms@.len() as int, 0)),
        forall|i: int| 0 <= i < old(st).syms@.len() && i != aops.0 ==> (#[trigger] final(st).syms@[i]).members@ == old(st).syms@[i].members@,
        implicit_only_member(*final(st), slot(old(st).syms@.len() as int, 0), aops, name@, "num"@, numeric, a),
{
    add_implicit_only(st, aops, name, "num", numeric, a);
}

/// `name(implicit ord: Ordering[A]): A` on `aops`, with `ordering` the
/// class `Ordering`.
fn add_ordering_pick(st: &mut SymbolTable, aops: SymbolId, a: SymbolId, ordering: SymbolId, name: &str)
    requires
        old(st).wf(),
        old(st).valid(aops),
        old(st).syms@.len() + 2 < u32::MAX,
    ensures
        final(st).wf(),
        final(st).grows_from(*old(st)),
        final(st).syms@.len() == old(st).syms@.len() + 2,
        final(st).sym(aops).members@ == old(st).sym(aops).members@.push(slot(old(st).syms@.len() as int, 0)),
        forall|i: int| 0 <= i < old(st).syms@.len() && i != aops.0 ==> (#[trigger] final(st).syms@[i]).members@ == old(st).syms@[i].members@,
        implicit_only_member(*final(st), slot(old(st).syms@.len() as int, 0), aops, name@, "ord"@, ordering, a),
{
    add_implicit_only(st, aops, name, "ord", ordering, a);
}

/// The first of `ms` from `j` on named `name` that is a class, or, where
/// `modules` holds, a module class.
pub open spec fn first_class_named(st: SymbolTable, ms: Seq<SymbolId>, name: Seq<char>, modules: bool, j: int) -> Option<SymbolId>
    decreases ms.len() - j,
{
    if j < 0 || j >= ms.len() {
        None
    } else if st.sym(ms[j]).name@ == name && (st.sym(ms[j]).kind == SymKind::Class || (modules && st.sym(ms[j]).kind
        == SymKind::ModuleClass)) {
        Some(ms[j])
    } else {
        first_class_named(st, ms, name, modules, j + 1)
    }
}

/// The class named `name` among the members of package `pkg` (a module
/// class too, where `modules` holds), or no symbol.
pub open spec fn class_in(st: SymbolTable, pkg: SymbolId, name: Seq<char>, modules: bool) -> SymbolId {
    match first_class_named(st, st.sym(pkg).members@, name, modules, 0) {
        Some(c) => c,
        None => no_symbol(),
    }
}

/// The first member of package `pkg` named `name` that is a class (or a
/// module class, where `modules` holds).
fn find_class(st: &SymbolTable, pkg: SymbolId, name: &str, modules: bool) -> (r: Option<SymbolId>)
    requires
        st.wf(),
        st.valid(pkg),
    ensures
        r == first_class_named(*st, st.sym(pkg).members@, name@, modules, 0),
        r matches Some(c) ==> st.valid(c),
{
    let ms = &st.get(pkg).members;
    let mut j: usize = 0;
    while j < ms.len()
        invariant
            st.wf(),
            st.valid(pkg),
            *ms == st.sym(pkg).members,
            j <= ms@.len(),
            first_class_named(*st, ms@, name@, modules, 0) == first_class_named(*st, ms@, name@, modules, j as int),
        decreases ms@.len() - j,
    {
        let id = ms[j];
        proof {
            assert(st.valid(id));
        }
        let s = st.get(id);
        if str_eq(s.name.as_str(), name) && (s.kind == SymKind::Class || (modules && s.kind == SymKind::ModuleClass)) {
            return Some(id);
        }
        j += 1;
    }
    None
}

/// `find_class`, with no symbol where there is none.
fn lookup_class(st: &SymbolTable, pkg: SymbolId, name: &str, modules: bool) -> (r: SymbolId)
    requires
        st.wf(),
        st.valid(pkg),
    ensures
        r == class_in(*st, pkg, name@, modules),
{
    match find_class(st, pkg, name, modules) {
        Some(c) => c,
        None => SymbolId(0xffff_ffff),
    }
}

/// The table's `List` class, or no symbol.
pub open spec fn list_or_none(st: SymbolTable) -> SymbolId {
    match st.list_sym {
        Some(l) => l,
        None => no_symbol(),
    }
}

/// A final method of `owner` named `name`, with no intrinsic and no JVM
/// name, whose type `ok` accepts.
pub open spec fn is_typed_member(s: Symbol, owner: SymbolId, name: Seq<char>, ok: spec_fn(Ty) -> bool) -> bool {
    &&& sym_is(s, name, SymKind::Method, owner, FLAG_FINAL, ""@)
    &&& s.intrinsic == Intrinsic::Plain
    &&& ok(s.ty)
}

/// The type `(op: (A, A) => A): A`.
pub open spec fn reduce_like_type(t: Ty, a: SymbolId) -> bool {
    let ta = Ty::TypeParam(a);
    t matches Ty::Method { paramss, ret } && paramss@.len() == 1 && paramss@[0]@.len() == 1 && is_fn_type(
        paramss@[0]@[0],
        seq![ta, ta],
        ta,
    ) && *ret == ta
}

/// `name(op: (A, A) => A): A` on `aops`; the library's `reduce[B >: A]`
/// with `B` taken to be `A`, which is what is inferred absent any other
/// constraint.
fn add_reduce_like(st: &mut SymbolTable, aops: SymbolId, a: SymbolId, name: &str)
    requires
        old(st).wf(),
        old(st).valid(aops),
        old(st).syms@.len() + 1 < u32::MAX,
    ensures
        final(st).wf(),
        final(st).grows_from(*old(st)),
        final(st).syms@.len() == old(st).syms@.len() + 1,
        final(st).sym(aops).members@ == old(st).sym(aops).members@.push(slot(old(st).syms@.len() as int, 0)),
        forall|i: int| 0 <= i < old(st).syms@.len() && i != aops.0 ==> (#[trigger] final(st).syms@[i]).members@ == old(st).syms@[i].members@,
        is_typed_member(final(st).sym(slot(old(st).syms@.len() as int, 0)), aops, name@, |t: Ty| reduce_like_type(t, a)),
{
    let op = fn2(Ty::TypeParam(a), Ty::TypeParam(a), Ty::TypeParam(a));
    let m = method(st, aops, name, tys1(op), Ty::TypeParam(a), Intrinsic::Plain);
    proof {
        reveal_strlit("");
        assert(st.sym(m).jvm_name@ =~= ""@);
        match st.sym(m).ty {
            Ty::Method { paramss, ret } => {
                assert(paramss@.map_values(|c: Vec<Ty>| c@).len() == paramss@.len());
                assert(paramss@.map_values(|c: Vec<Ty>| c@)[0] == paramss@[0]@);
            },
            _ => {},
        }
    }
}

/// `name[B](f: A => B)(implicit ord: Ordering[B]): A` on `aops`, with
/// `ordering` the class `Ordering`.
fn add_by_pick(st: &mut SymbolTable, aops: SymbolId, a: SymbolId, ordering: SymbolId, name: &str)
    requires
        old(st).wf(),
        old(st).valid(aops),
        old(st).syms@.len() + 4 < u32::MAX,
    ensures
        final(st).wf(),
        final(st).grows_from(*old(st)),
        final(st).syms@.len() == old(st).syms@.len() + 4,
        final(st).sym(aops).members@ == old(st).sym(aops).members@.push(slot(old(st).syms@.len() as int, 0)),
        forall|i: int| 0 <= i < old(st).syms@.len() && i != aops.0 ==> (#[trigger] final(st).syms@[i]).members@ == old(st).syms@[i].members@,
        shaped_member(
            *final(st),
            old(st).syms@.len() as int,
            aops,
            name@,
            "B"@,
            "f"@,
            FLAG_PARAM,
            "ord"@,
            FLAG_PARAM | FLAG_IMPLICIT,
            MemberShape::ByPick { ordering },
            a,
        ),
{
    two_clause_method(st, aops, name, "B", "f", FLAG_PARAM, "ord", FLAG_PARAM | FLAG_IMPLICIT, MemberShape::ByPick { ordering }, a);
}

/// `n` grows from `o`, and only `owner`, of the symbols of `o`, gained
/// members.
pub open spec fn grows_under(n: SymbolTable, o: SymbolTable, owner: SymbolId) -> bool {
    &&& n.grows_from(o)
    &&& forall|i: int| 0 <= i < o.syms@.len() && i != owner.0 ==> (#[trigger] n.syms@[i]).members@ == o.syms@[i].members@
}

proof fn lemma_grows_under_trans(a: SymbolTable, b: SymbolTable, c: SymbolTable, owner: SymbolId)
    requires
        grows_under(b, a, owner),
        grows_under(c, b, owner),
    ensures
        grows_under(c, a, owner),
{
    lemma_grows_trans(a, b, c);
    assert forall|i: int| 0 <= i < a.syms@.len() && i != owner.0 implies (#[trigger] c.syms@[i]).members@
        == a.syms@[i].members@ by {
        assert(c.syms@[i].members@ == b.syms@[i].members@);
    }
}

/// A symbol of `o` other than `owner` reads the same in `n`.
proof fn lemma_kept_under(n: SymbolTable, o: SymbolTable, owner: SymbolId, id: SymbolId)
    requires
        grows_under(n, o, owner),
        o.valid(id),
        id != owner,
    ensures
        kept(n, o, id),
{
    assert(n.syms@[id.0 as int].same_except_members(o.syms@[id.0 as int]));
    assert(n.syms@[id.0 as int].members@ == o.syms@[id.0 as int].members@);
}

/// What `add_array_ops_wrapped_conversions` adds to `o`, giving `n`, from
/// slot `l` on: `toList: List[A]`, `toSet: Set[A]`, `toVector: Vector[A]`,
/// the three `mkString`, `reduce`, `reduceLeft`, `sum`, `product`, `min`,
/// `max`, `minBy` and `maxBy`, in this order, on `aops`.
pub open spec fn wrapped_conversions_installed(o: SymbolTable, n: SymbolTable, aops: SymbolId, ordering: SymbolId, numeric: SymbolId) -> bool {
    let l = o.syms@.len() as int;
    let a = o.sym(aops).tparams@[0];
    let ta = Ty::TypeParam(a);
    let scala = o.scala_pkg.unwrap();
    let text = |r: Ty| r == Ty::Str;
    &&& n.syms@.len() == l + 24
    &&& n.sym(aops).members@ == o.sym(aops).members@ + seq![
        slot(l, 0),
        slot(l, 1),
        slot(l, 2),
        slot(l, 3),
        slot(l, 4),
        slot(l, 5),
        slot(l, 6),
        slot(l, 7),
        slot(l, 8),
        slot(l, 10),
        slot(l, 12),
        slot(l, 14),
        slot(l, 16),
        slot(l, 20),
    ]
    &&& is_plain_member(n.sym(slot(l, 0)), aops, "toList"@, seq![], |r: Ty| is_applied(r, list_or_none(o), seq![ta]))
    &&& is_plain_member(n.sym(slot(l, 1)), aops, "toSet"@, seq![], |r: Ty| is_applied(r, class_in(o, scala, "Set"@, true), seq![ta]))
    &&& is_plain_member(
        n.sym(slot(l, 2)),
        aops,
        "toVector"@,
        seq![],
        |r: Ty| is_applied(r, class_in(o, scala, "Vector"@, true), seq![ta]),
    )
    &&& is_plain_member(n.sym(slot(l, 3)), aops, "mkString"@, seq![], text)
    &&& is_plain_member(n.sym(slot(l, 4)), aops, "mkString"@, seq![Ty::Str], text)
    &&& is_plain_member(n.sym(slot(l, 5)), aops, "mkString"@, seq![Ty::Str, Ty::Str, Ty::Str], text)
    &&& is_typed_member(n.sym(slot(l, 6)), aops, "reduce"@, |t: Ty| reduce_like_type(t, a))
    &&& is_typed_member(n.sym(slot(l, 7)), aops, "reduceLeft"@, |t: Ty| reduce_like_type(t, a))
    &&& implicit_only_member(n, slot(l, 8), aops, "sum"@, "num"@, numeric, a)
    &&& implicit_only_member(n, slot(l, 10), aops, "product"@, "num"@, numeric, a)
    &&& implicit_only_member(n, slot(l, 12), aops, "min"@, "ord"@, ordering, a)
    &&& implicit_only_member(n, slot(l, 14), aops, "max"@, "ord"@, ordering, a)
    &&& shaped_member(n, l + 16, aops, "minBy"@, "B"@, "f"@, FLAG_PARAM, "ord"@, FLAG_PARAM | FLAG_IMPLICIT, MemberShape::ByPick { ordering }, a)
    &&& shaped_member(n, l + 20, aops, "maxBy"@, "B"@, "f"@, FLAG_PARAM, "ord"@, FLAG_PARAM | FLAG_IMPLICIT, MemberShape::ByPick { ordering }, a)
}

/// `implicit_only_member` depends only on the method and its parameter.
proof fn lemma_implicit_kept(n: SymbolTable, o: SymbolTable, m: SymbolId, owner: SymbolId, name: Seq<char>, ev_name: Seq<char>, tc: SymbolId, a: SymbolId)
    requires
        implicit_only_member(o, m, owner, name, ev_name, tc, a),
        kept(n, o, m),
        kept(n, o, slot(m.0 as int, 1)),
    ensures
        implicit_only_member(n, m, owner, name, ev_name, tc, a),
{
}

/// The conversions and aggregations `ArrayOps` reaches through
/// `ArraySeq`: `toList`, `toSet` and `toVector` (over the table's `List` and
/// the `Set` and `Vector` of `scala`), `mkString()`, `mkString(sep)`,
/// `mkString(start, sep, end)`, `reduce`, `reduceLeft`, `sum` and `product`
/// (with `numeric` the class `Numeric`), `min`, `max`, `minBy` and `maxBy`
/// (with `ordering` the class `Ordering`).
#[verifier::spinoff_prover]
#[verifier::rlimit(80)]
pub fn add_array_ops_wrapped_conversions(st: &mut SymbolTable, aops: SymbolId, ordering: SymbolId, numeric: SymbolId)
    requires
        old(st).wf(),
        old(st).valid(aops),
        old(st).scala_pkg is Some,
        old(st).sym(aops).tparams@.len() > 0,
        old(st).syms@.len() + 24 < u32::MAX,
    ensures
        final(st).wf(),
        grows_under(*final(st), *old(st), aops),
        wrapped_conversions_installed(*old(st), *final(st), aops, ordering, numeric),
{
    let ghost s0 = *st;
    let ghost l = s0.syms@.len() as int;
    let a = st.get(aops).tparams[0];
    let list = match st.list_sym {
        Some(x) => x,
        None => SymbolId(0xffff_ffff),
    };
    let scala = st.scala_pkg.unwrap();
    let set_sym = lookup_class(st, scala, "Set", true);
    let vector_sym = lookup_class(st, scala, "Vector", true);
    let m0 = method(st, aops, "toList", Vec::new(), applied(list, tys1(Ty::TypeParam(a))), Intrinsic::Plain);
    let ghost s1 = *st;
    let m1 = method(st, aops, "toSet", Vec::new(), applied(set_sym, tys1(Ty::TypeParam(a))), Intrinsic::Plain);
    let ghost s2 = *st;
    let m2 = method(st, aops, "toVector", Vec::new(), applied(vector_sym, tys1(Ty::TypeParam(a))), Intrinsic::Plain);
    let ghost s3 = *st;
    let m3 = method(st, aops, "mkString", Vec::new(), Ty::Str, Intrinsic::Plain);
    let ghost s4 = *st;
    let m4 = method(st, aops, "mkString", tys1(Ty::Str), Ty::Str, Intrinsic::Plain);
    let ghost s5 = *st;
    let mut three: Vec<Ty> = Vec::new();
    three.push(Ty::Str);
    three.push(Ty::Str);
    three.push(Ty::Str);
    let ghost tg = three@;
    let m5 = method(st, aops, "mkString", three, Ty::Str, Intrinsic::Plain);
    let ghost s6 = *st;
    add_reduce_like(st, aops, a, "reduce");
    let ghost s7 = *st;
    add_reduce_like(st, aops, a, "reduceLeft");
    let ghost s8 = *st;
    add_numeric_fold(st, aops, a, numeric, "sum");
    let ghost s9 = *st;
    add_numeric_fold(st, aops, a, numeric, "product");
    let ghost s10 = *st;
    add_ordering_pick(st, aops, a, ordering, "min");
    let ghost s11 = *st;
    add_ordering_pick(st, aops, a, ordering, "max");
    let ghost s12 = *st;
    add_by_pick(st, aops, a, ordering, "minBy");
    let ghost s13 = *st;
    add_by_pick(st, aops, a, ordering, "maxBy");
    proof {
        let n = *st;
        reveal_strlit("");
        assert(tg =~= seq![Ty::Str, Ty::Str, Ty::Str]);
        assert(s1.sym(m0).jvm_name@ =~= ""@);
        assert(s2.sym(m1).jvm_name@ =~= ""@);
        assert(s3.sym(m2).jvm_name@ =~= ""@);
        assert(s4.sym(m3).jvm_name@ =~= ""@);
        assert(s5.sym(m4).jvm_name@ =~= ""@);
        assert(s6.sym(m5).jvm_name@ =~= ""@);
        // each state on grows, only `aops` gaining members, to the end
        lemma_grows_under_trans(s12, s13, n, aops);
        lemma_grows_under_trans(s11, s12, n, aops);
        lemma_grows_under_trans(s10, s11, n, aops);
        lemma_grows_under_trans(s9, s10, n, aops);
        lemma_grows_under_trans(s8, s9, n, aops);
        lemma_grows_under_trans(s7, s8, n, aops);
        lemma_grows_under_trans(s6, s7, n, aops);
        lemma_grows_under_trans(s5, s6, n, aops);
        lemma_grows_under_trans(s4, s5, n, aops);
        lemma_grows_under_trans(s3, s4, n, aops);
        lemma_grows_under_trans(s2, s3, n, aops);
        lemma_grows_under_trans(s1, s2, n, aops);
        lemma_grows_under_trans(s0, s1, n, aops);
        lemma_kept_under(n, s1, aops, m0);
        lemma_kept_under(n, s2, aops, m1);
        lemma_kept_under(n, s3, aops, m2);
        lemma_kept_under(n, s4, aops, m3);
        lemma_kept_under(n, s5, aops, m4);
        lemma_kept_under(n, s6, aops, m5);
        lemma_kept_under(n, s7, aops, slot(l, 6));
        lemma_kept_under(n, s8, aops, slot(l, 7));
        lemma_kept_under(n, s9, aops, slot(l, 8));
        lemma_kept_under(n, s9, aops, slot(l, 9));
        lemma_implicit_kept(n, s9, slot(l, 8), aops, "sum"@, "num"@, numeric, a);
        lemma_kept_under(n, s10, aops, slot(l, 10));
        lemma_kept_under(n, s10, aops, slot(l, 11));
        lemma_implicit_kept(n, s10, slot(l, 10), aops, "product"@, "num"@, numeric, a);
        lemma_kept_under(n, s11, aops, slot(l, 12));
        lemma_kept_under(n, s11, aops, slot(l, 13));
        lemma_implicit_kept(n, s11, slot(l, 12), aops, "min"@, "ord"@, ordering, a);
        lemma_kept_under(n, s12, aops, slot(l, 14));
        lemma_kept_under(n, s12, aops, slot(l, 15));
        lemma_implicit_kept(n, s12, slot(l, 14), aops, "max"@, "ord"@, ordering, a);
        assert forall|k: int| 0 <= k < 4 implies kept(n, s13, #[trigger] slot(l + 16, k)) by {
            lemma_kept_under(n, s13, aops, slot(l + 16, k));
        }
        lemma_shaped_kept(s13, n, l + 16, aops, "minBy"@, "B"@, "f"@, FLAG_PARAM, "ord"@, FLAG_PARAM | FLAG_IMPLICIT, MemberShape::ByPick { ordering }, a);
        assert(n.sym(aops).members@ =~= s0.sym(aops).members@ + seq![
            slot(l, 0),
            slot(l, 1),
            slot(l, 2),
            slot(l, 3),
            slot(l, 4),
            slot(l, 5),
            slot(l, 6),
            slot(l, 7),
            slot(l, 8),
            slot(l, 10),
            slot(l, 12),
            slot(l, 14),
            slot(l, 16),
            slot(l, 20),
        ]);
    }
}

/// The two symbols from slot `l` on are the implicit object `name` under
/// `num_cls` (its module class, then the module) of type `numeric[arg]`,
/// whose class extends `numeric[arg]`.
pub open spec fn numeric_instance(n: SymbolTable, l: int, num_cls: SymbolId, numeric: SymbolId, name: Seq<char>, jvm: Seq<char>, arg: Ty) -> bool {
    let (c, m) = (slot(l, 0), slot(l, 1));
    &&& fresh_symbol(n.sym(c), name + "$"@, SymKind::ModuleClass, Some(num_cls), FLAG_MODULE | FLAG_FINAL, jvm)
    &&& n.sym(c).ty == Ty::ModuleRef(c)
    &&& n.sym(c).parents@.len() == 1 && is_applied(n.sym(c).parents@[0], numeric, seq![arg])
    &&& fresh_symbol(n.sym(m), name, SymKind::Module, Some(num_cls), FLAG_MODULE | FLAG_IMPLICIT, jvm)
    &&& is_applied(n.sym(m).ty, numeric, seq![arg])
    &&& n.sym(m).parents@.len() == 0
}

/// The implicit object `name` (at `jvm`) under the module class `num_cls`:
/// a `numeric[arg]` whose class extends `numeric[arg]`.
fn add_numeric_instance(st: &mut SymbolTable, num_cls: SymbolId, numeric: SymbolId, name: &str, jvm: &str, arg: Ty)
    requires
        old(st).wf(),
        old(st).valid(num_cls),
        old(st).valid(numeric),
        old(st).syms@.len() + 2 < u32::MAX,
        arg matches Ty::Prim(_),
    ensures
        final(st).wf(),
        grows_under(*final(st), *old(st), num_cls),
        final(st).syms@.len() == old(st).syms@.len() + 2,
        final(st).sym(num_cls).members@ == old(st).sym(num_cls).members@ + seq![
            slot(old(st).syms@.len() as int, 0),
            slot(old(st).syms@.len() as int, 1),
        ],
        numeric_instance(*final(st), old(st).syms@.len() as int, num_cls, numeric, name@, jvm@, arg),
{
    let ghost st0 = *st;
    let ghost argg = arg;
    let m = module(st, num_cls, name, jvm);
    let ghost s1 = *st;
    let cls = SymbolId(m.0 - 1);
    let f = st.get(m).flags | FLAG_IMPLICIT;
    st.set_flags(m, f);
    let ghost s2 = *st;
    let mut args: Vec<Ty> = Vec::new();
    args.push(copy_prim(&arg));
    let ty = applied(numeric, args);
    let ghost tyg = ty;
    st.set_ty(m, ty);
    let ghost s3 = *st;
    let mut a2: Vec<Ty> = Vec::new();
    a2.push(arg);
    let parent = applied(numeric, a2);
    let ghost pg = parent;
    let ps = vec![parent];
    let ghost psg = ps;
    st.set_parents(cls, ps);
    proof {
        assert(psg@ == seq![pg]);
        lemma_grows_fresh_slot(st0, s1, s2, m, Symbol { flags: f, ..s1.sym(m) });
        lemma_grows_fresh_slot(st0, s2, s3, m, Symbol { ty: tyg, ..s2.sym(m) });
        lemma_grows_fresh_slot(st0, s3, *st, cls, Symbol { parents: psg, ..s3.sym(cls) });
        assert(st.sym(num_cls).members@ =~= st0.sym(num_cls).members@ + seq![cls, m]);
        assert(numeric_instance(*st, st0.syms@.len() as int, num_cls, numeric, name@, jvm@, argg));
    }
}

/// A copy of a primitive type.
fn copy_prim(t: &Ty) -> (r: Ty)
    requires
        *t matches Ty::Prim(_),
    ensures
        r == *t,
{
    match t {
        Ty::Prim(p) => Ty::Prim(*p),
        _ => Ty::Unit,
    }
}

/// What `add_numeric` declares from slot `l` on: the trait
/// `Numeric[T]` under `math`, its companion `Numeric` and, on the
/// companion's class, the implicit objects `IntIsIntegral`, `LongIsIntegral`
/// and `DoubleIsFractional`, which the companion lists too.
pub open spec fn numeric_installed(o: SymbolTable, n: SymbolTable, math: SymbolId) -> bool {
    let l = o.syms@.len() as int;
    let (numeric, t, num_cls, num_mod) = (slot(l, 0), slot(l, 1), slot(l, 2), slot(l, 3));
    let instances = seq![slot(l, 4), slot(l, 5), slot(l, 6), slot(l, 7), slot(l, 8), slot(l, 9)];
    &&& n.syms@.len() == l + 10
    &&& sym_is(n.sym(numeric), "Numeric"@, SymKind::Class, math, iface_flags(), "scala/math/Numeric"@)
    &&& n.sym(numeric).tparams@ == seq![t]
    &&& n.sym(numeric).members@ == seq![t]
    &&& is_type_param(n.sym(t), t, numeric, "T"@)
    &&& sym_is(n.sym(num_cls), "Numeric$"@, SymKind::ModuleClass, math, FLAG_MODULE | FLAG_FINAL, "scala/math/Numeric$"@)
    &&& sym_is(n.sym(num_mod), "Numeric"@, SymKind::Module, math, FLAG_MODULE, "scala/math/Numeric$"@)
    &&& n.sym(num_mod).ty == Ty::ModuleRef(num_cls)
    &&& n.sym(num_cls).members@ == instances
    &&& n.sym(num_mod).members@ == instances
    &&& n.sym(math).members@ == o.sym(math).members@ + seq![numeric, num_cls, num_mod]
    &&& numeric_instance(n, l + 4, num_cls, numeric, "IntIsIntegral"@, "scala/math/Numeric$IntIsIntegral$"@, Ty::Prim(Prim::Int))
    &&& numeric_instance(n, l + 6, num_cls, numeric, "LongIsIntegral"@, "scala/math/Numeric$LongIsIntegral$"@, Ty::Prim(Prim::Long))
    &&& numeric_instance(
        n,
        l + 8,
        num_cls,
        numeric,
        "DoubleIsFractional"@,
        "scala/math/Numeric$DoubleIsFractional$"@,
        Ty::Prim(Prim::Double),
    )
}

/// `numeric_instance` depends only on its two symbols.
proof fn lemma_instance_kept(n: SymbolTable, o: SymbolTable, l: int, num_cls: SymbolId, numeric: SymbolId, name: Seq<char>, jvm: Seq<char>, arg: Ty)
    requires
        numeric_instance(o, l, num_cls, numeric, name, jvm, arg),
        kept(n, o, slot(l, 0)),
        kept(n, o, slot(l, 1)),
    ensures
        numeric_instance(n, l, num_cls, numeric, name, jvm, arg),
{
}

/// The type class `scala.math.Numeric[T]` under `math`, with its instances
/// for `Int`, `Long` and `Double`, unless the table already holds it; the
/// answer is the class.
#[verifier::spinoff_prover]
#[verifier::rlimit(60)]
pub fn add_numeric(st: &mut SymbolTable, math: SymbolId) -> (numeric: SymbolId)
    requires
        old(st).wf(),
        old(st).valid(math),
        old(st).syms@.len() + 10 < u32::MAX,
    ensures
        final(st).wf(),
        match old(st).spec_find_by_jvm("scala/math/Numeric"@) {
            Some(e) => numeric == e && *final(st) == *old(st),
            None => {
                &&& numeric == slot(old(st).syms@.len() as int, 0)
                &&& grows_under(*final(st), *old(st), math)
                &&& numeric_installed(*old(st), *final(st), math)
            },
        },
{
    if let Some(existing) = st.find_by_jvm("scala/math/Numeric") {
        return existing;
    }
    let ghost s0 = *st;
    let ghost l = s0.syms@.len() as int;
    let numeric = iface(st, math, "Numeric", "scala/math/Numeric");
    let ghost s1 = *st;
    let t = type_param(st, numeric, "T");
    let ghost s2 = *st;
    let tv = vec![t];
    let ghost tg = tv;
    st.set_tparams(numeric, tv);
    let ghost s3 = *st;
    let num_mod = module(st, math, "Numeric", "scala/math/Numeric$");
    let ghost s4 = *st;
    let num_cls = SymbolId(num_mod.0 - 1);
    add_numeric_instance(st, num_cls, numeric, "IntIsIntegral", "scala/math/Numeric$IntIsIntegral$", Ty::Prim(Prim::Int));
    let ghost s5 = *st;
    add_numeric_instance(st, num_cls, numeric, "LongIsIntegral", "scala/math/Numeric$LongIsIntegral$", Ty::Prim(Prim::Long));
    let ghost s6 = *st;
    add_numeric_instance(
        st,
        num_cls,
        numeric,
        "DoubleIsFractional",
        "scala/math/Numeric$DoubleIsFractional$",
        Ty::Prim(Prim::Double),
    );
    let ghost s7 = *st;
    let mems = st.get(num_cls).members.clone();
    proof {
        assert(st.valid(num_cls));
        assert forall|j: int| 0 <= j < mems@.len() implies st.valid(#[trigger] mems@[j]) by {
            assert(mems@[j] == st.sym(num_cls).members@[j]);
        }
    }
    st.extend_members(num_mod, &mems);
    proof {
        let n = *st;
        lemma_grows_trans(s0, s1, s2);
        lemma_grows_fresh_slot(s0, s2, s3, numeric, Symbol { tparams: tg, ..s2.sym(numeric) });
        assert(tg@ == seq![t]);
        assert(s3.sym(numeric).members@ =~= seq![t]);
        lemma_grows_trans(s0, s3, s4);
        lemma_grows_trans(s0, s4, s5);
        lemma_grows_trans(s0, s5, s6);
        lemma_grows_trans(s0, s6, s7);
        lemma_grows_trans(s0, s7, n);
        lemma_grows_trans(s3, s4, s5);
        lemma_grows_trans(s3, s5, s6);
        lemma_grows_trans(s3, s6, s7);
        lemma_grows_trans(s3, s7, n);
        lemma_grows_trans(s5, s6, s7);
        lemma_grows_trans(s5, s7, n);
        lemma_grows_trans(s6, s7, n);
        // the members of every symbol but `math`, `numeric`, the companion
        // and its class stay as they were
        assert forall|i: int| 0 <= i < l && i != math.0 implies (#[trigger] n.syms@[i]).members@ == s0.syms@[i].members@ by {
            assert(n.syms@[i].members@ == s7.syms@[i].members@);
            assert(s7.syms@[i].members@ == s6.syms@[i].members@);
            assert(s6.syms@[i].members@ == s5.syms@[i].members@);
            assert(s5.syms@[i].members@ == s4.syms@[i].members@);
            assert(s4.syms@[i].members@ == s3.syms@[i].members@);
            assert(s3.syms@[i].members@ == s2.syms@[i].members@);
            assert(s2.syms@[i].members@ == s1.syms@[i].members@);
        }
        assert(grows_under(n, s0, math));
        // `math`
        assert(n.sym(math).members@ == s4.sym(math).members@);
        assert(s3.sym(math).members@ == s1.sym(math).members@);
        assert(n.sym(math).members@ =~= s0.sym(math).members@ + seq![numeric, num_cls, num_mod]);
        // `numeric` and `T`
        assert(n.sym(numeric).members@ == s3.sym(numeric).members@);
        assert(n.syms@[numeric.0 as int].same_except_members(s3.syms@[numeric.0 as int]));
        assert(n.syms@[t.0 as int].same_except_members(s2.syms@[t.0 as int]));
        assert(n.sym(t).members@ == s2.sym(t).members@);
        // the companion and its class
        assert(s4.sym(num_mod).members@.len() == 0);
        assert(s7.sym(num_mod).members@ == s4.sym(num_mod).members@);
        assert(s4.sym(num_cls).members@.len() == 0);
        assert(s7.sym(num_cls).members@ =~= seq![slot(l, 4), slot(l, 5), slot(l, 6), slot(l, 7), slot(l, 8), slot(l, 9)]);
        assert(n.sym(num_cls).members@ == s7.sym(num_cls).members@);
        assert(n.sym(num_mod).members@ =~= seq![slot(l, 4), slot(l, 5), slot(l, 6), slot(l, 7), slot(l, 8), slot(l, 9)]);
        assert(n.syms@[num_cls.0 as int].same_except_members(s4.syms@[num_cls.0 as int]));
        assert(n.syms@[num_mod.0 as int].same_except_members(s4.syms@[num_mod.0 as int]));
        // the instances
        assert(n.sym(slot(l, 4)).members@ == s5.sym(slot(l, 4)).members@);
        assert(n.sym(slot(l, 5)).members@ == s5.sym(slot(l, 5)).members@);
        lemma_instance_kept(n, s5, l + 4, num_cls, numeric, "IntIsIntegral"@, "scala/math/Numeric$IntIsIntegral$"@, Ty::Prim(Prim::Int));
        assert(n.sym(slot(l, 6)).members@ == s6.sym(slot(l, 6)).members@);
        assert(n.sym(slot(l, 7)).members@ == s6.sym(slot(l, 7)).members@);
        lemma_instance_kept(n, s6, l + 6, num_cls, numeric, "LongIsIntegral"@, "scala/math/Numeric$LongIsIntegral$"@, Ty::Prim(Prim::Long));
        assert(n.sym(slot(l, 8)).members@ == s7.sym(slot(l, 8)).members@);
        assert(n.sym(slot(l, 9)).members@ == s7.sym(slot(l, 9)).members@);
        lemma_instance_kept(
            n,
            s7,
            l + 8,
            num_cls,
            numeric,
            "DoubleIsFractional"@,
            "scala/math/Numeric$DoubleIsFractional$"@,
            Ty::Prim(Prim::Double),
        );
        reveal_strlit("Numeric");
        reveal_strlit("$");
        reveal_strlit("Numeric$");
        assert("Numeric"@ + "$"@ =~= "Numeric$"@);
    }
    numeric
}

/// What `extend_list_with` makes of `o`: when the table's `List[X]` has a
/// type parameter and no parent naming `ioc`, it also extends `ioc[X]`;
/// else nothing changes.
pub open spec fn list_extended(o: SymbolTable, n: SymbolTable, ioc: SymbolId) -> bool {
    let list = o.list_sym.unwrap();
    let ps = o.sym(list).parents@;
    if o.sym(list).tparams@.len() > 0 && !names_class(ps, ioc) {
        &&& n.syms@.len() == o.syms@.len()
        &&& n.scope == o.scope
        &&& n.same_well_known(o)
        &&& forall|i: int| 0 <= i < o.syms@.len() && i != list.0 ==> #[trigger] n.syms@[i] == o.syms@[i]
        &&& n.sym(list).same_except_parents(o.sym(list))
        &&& n.sym(list).parents@.len() == ps.len() + 1
        &&& n.sym(list).parents@.take(ps.len() as int) == ps
        &&& is_applied(n.sym(list).parents@.last(), ioc, seq![Ty::TypeParam(o.sym(list).tparams@[0])])
    } else {
        n == o
    }
}

/// The table's `List[X]` extends `ioc[X]` too, unless it already extends
/// `ioc` or has no type parameter.
fn extend_list_with(st: &mut SymbolTable, ioc: SymbolId)
    requires
        old(st).wf(),
        old(st).valid(ioc),
        old(st).list_sym is Some,
    ensures
        final(st).wf(),
        list_extended(*old(st), *final(st), ioc),
{
    let list = st.list_sym.unwrap();
    if st.get(list).tparams.len() > 0 {
        let la = st.get(list).tparams[0];
        let parent = applied(ioc, tys1(Ty::TypeParam(la)));
        let ghost pg = parent;
        if !has_class_parent(&st.get(list).parents, ioc) {
            let ghost s0 = *st;
            st.push_parent(list, parent);
            proof {
                let ps = s0.sym(list).parents@;
                assert(st.sym(list).parents@.take(ps.len() as int) =~= ps);
                assert(st.sym(list).parents@.last() == pg);
            }
        }
    }
}

/// What `iterable_once_from` makes of `o` given `found`, giving `n` and
/// `ioc`: the class `found` where there is one, else the new trait
/// `IterableOnce[A]` under `coll` from slot `l` on; then `List` extends it
/// as `list_extended` says.
pub open spec fn iterable_once_found(o: SymbolTable, n: SymbolTable, coll: SymbolId, found: Option<SymbolId>, ioc: SymbolId) -> bool {
    let l = o.syms@.len() as int;
    match found {
        Some(c) => ioc == c && list_extended(o, n, c),
        None => {
            let ia = slot(l, 1);
            exists|p: SymbolTable|
                {
                    &&& p.wf()
                    &&& grows_under(p, o, coll)
                    &&& p.syms@.len() == l + 2
                    &&& ioc == slot(l, 0)
                    &&& p.sym(coll).members@ == o.sym(coll).members@.push(ioc)
                    &&& sym_is(p.sym(ioc), "IterableOnce"@, SymKind::Class, coll, iface_flags(), "scala/collection/IterableOnce"@)
                    &&& p.sym(ioc).parents@ == seq![Ty::AnyRef]
                    &&& p.sym(ioc).tparams@ == seq![ia]
                    &&& p.sym(ioc).members@ == seq![ia]
                    &&& is_type_param(p.sym(ia), ia, ioc, "A"@)
                    &&& #[trigger] list_extended(p, n, ioc)
                }
        },
    }
}

/// `scala.collection.IterableOnce[A]`: the class of that name in `coll`
/// where there is one, else a new trait; the table's `List[X]` is made to
/// extend `IterableOnce[X]` unless it already does.
pub fn find_iterable_once(st: &mut SymbolTable, coll: SymbolId) -> (ioc: SymbolId)
    requires
        old(st).wf(),
        old(st).valid(coll),
        old(st).list_sym is Some,
        old(st).syms@.len() + 2 < u32::MAX,
    ensures
        final(st).wf(),
        iterable_once_found(
            *old(st),
            *final(st),
            coll,
            first_class_named(*old(st), old(st).sym(coll).members@, "IterableOnce"@, false, 0),
            ioc,
        ),
{
    let found = find_class(st, coll, "IterableOnce", false);
    iterable_once_from(st, coll, found)
}

/// `find_iterable_once` with the lookup already made: `found` is the class
/// `IterableOnce` of `coll`, if there is one.
fn iterable_once_from(st: &mut SymbolTable, coll: SymbolId, found: Option<SymbolId>) -> (ioc: SymbolId)
    requires
        old(st).wf(),
        old(st).valid(coll),
        old(st).list_sym is Some,
        old(st).syms@.len() + 2 < u32::MAX,
        found matches Some(c) ==> old(st).valid(c),
    ensures
        final(st).wf(),
        iterable_once_found(*old(st), *final(st), coll, found, ioc),
{
    let ghost s0 = *st;
    let ioc = if let Some(c) = found {
        c
    } else {
        let ioc = iface(st, coll, "IterableOnce", "scala/collection/IterableOnce");
        let ghost s1 = *st;
        let ia = type_param(st, ioc, "A");
        let ghost s2 = *st;
        let tv = vec![ia];
        let ghost tg = tv;
        st.set_tparams(ioc, tv);
        proof {
            lemma_grows_trans(s0, s1, s2);
            lemma_grows_fresh_slot(s0, s2, *st, ioc, Symbol { tparams: tg, ..s2.sym(ioc) });
            assert(tg@ == seq![ia]);
            assert(st.sym(ioc).members@ =~= seq![ia]);
            assert(st.syms@[ia.0 as int].same_except_members(s2.syms@[ia.0 as int]));
            assert forall|i: int| 0 <= i < s0.syms@.len() && i != coll.0 implies (#[trigger] st.syms@[i]).members@
                == s0.syms@[i].members@ by {
                assert(st.syms@[i].members@ == s2.syms@[i].members@);
                assert(s2.syms@[i].members@ == s1.syms@[i].members@);
            }
        }
        ioc
    };
    let ghost p = *st;
    extend_list_with(st, ioc);
    proof {
        if found is None {
            assert(list_extended(p, *st, ioc));
        }
    }
    ioc
}

/// The symbols from slot `l` on are the method `name` of `owner` with no
/// type parameter, whose explicit parameters `names` (one clause, the type
/// of the `i`-th accepted by `ok(i, ..)`) are followed by `evidence$1:
/// tag[A]` in a clause of its own, answering what `ret` accepts.
pub open spec fn evidence_member(
    n: SymbolTable,
    l: int,
    owner: SymbolId,
    name: Seq<char>,
    names: Seq<Seq<char>>,
    ok: spec_fn(int, Ty) -> bool,
    tag: SymbolId,
    a: SymbolId,
    ret: spec_fn(Ty) -> bool,
) -> bool {
    let k = names.len() as int;
    let m = slot(l, 0);
    let ps = Seq::new(k as nat, |i: int| slot(l, 1 + i));
    let ev = slot(l, 1 + k);
    let s = n.sym(m);
    &&& sym_is(s, name, SymKind::Method, owner, FLAG_FINAL, ""@)
    &&& s.intrinsic == Intrinsic::Plain
    &&& s.tparams@.len() == 0
    &&& s.params@ == ps.push(ev)
    &&& s.paramss@.len() == 2 && s.paramss@[0]@ == ps && s.paramss@[1]@ == seq![ev]
    &&& s.members@ == ps.push(ev)
    &&& (s.ty matches Ty::Method { paramss, ret: r } && paramss@.len() == 2 && paramss@[0]@.len() == k && (forall|i: int|
        0 <= i < k ==> ok(i, #[trigger] paramss@[0]@[i])) && paramss@[1]@.len() == 1 && is_applied(
        paramss@[1]@[0],
        tag,
        seq![Ty::TypeParam(a)],
    ) && ret(*r))
    &&& forall|i: int|
        0 <= i < k ==> {
            &&& fresh_symbol(#[trigger] n.sym(ps[i]), names[i], SymKind::Term, Some(m), FLAG_PARAM, ""@)
            &&& ok(i, n.sym(ps[i]).ty)
        }
    &&& fresh_symbol(n.sym(ev), "evidence$1"@, SymKind::Term, Some(m), FLAG_PARAM | FLAG_IMPLICIT, ""@)
    &&& is_applied(n.sym(ev).ty, tag, seq![Ty::TypeParam(a)])
}

/// Declare on `owner` the method `name(names: tys)(implicit evidence$1:
/// tag[A]): ret`; `sig` holds the same types again, for the method's type,
/// and `ok(i, ..)` accepts both copies of the `i`-th.
fn evidence_method(
    st: &mut SymbolTable,
    owner: SymbolId,
    name: &str,
    names: &Vec<&str>,
    tys: Vec<Ty>,
    sig: Vec<Ty>,
    tag: SymbolId,
    a: SymbolId,
    ret: Ty,
    ok: Ghost<spec_fn(int, Ty) -> bool>,
    ret_ok: Ghost<spec_fn(Ty) -> bool>,
) -> (m: SymbolId)
    requires
        old(st).wf(),
        old(st).valid(owner),
        names@.len() == tys@.len(),
        sig@.len() == tys@.len(),
        forall|i: int| 0 <= i < tys@.len() ==> ok@(i, #[trigger] tys@[i]),
        forall|i: int| 0 <= i < sig@.len() ==> ok@(i, #[trigger] sig@[i]),
        ret_ok@(ret),
        names@.len() < 8,
        old(st).syms@.len() + 10 < u32::MAX,
        forall|i: int| 0 <= i < tys@.len() ==> !(#[trigger] tys@[i] is ModuleRef),
    ensures
        final(st).wf(),
        grows_under(*final(st), *old(st), owner),
        final(st).syms@.len() == old(st).syms@.len() + names@.len() + 2,
        m == slot(old(st).syms@.len() as int, 0),
        final(st).sym(owner).members@ == old(st).sym(owner).members@.push(m),
        evidence_member(
            *final(st),
            old(st).syms@.len() as int,
            owner,
            name@,
            names@.map_values(|x: &str| x@),
            ok@,
            tag,
            a,
            ret_ok@,
        ),
{
    let ghost s0 = *st;
    let ghost l = s0.syms@.len() as int;
    let ghost tyv = tys@;
    let ghost sigv = sig@;
    let ghost retg = ret;
    let m = method(st, owner, name, Vec::new(), Ty::Unit, Intrinsic::Plain);
    let ghost s1 = *st;
    let mut ids: Vec<SymbolId> = Vec::new();
    let mut rest = tys;
    let mut j: usize = 0;
    while j < names.len()
        invariant
            s1.wf(),
            s1.syms@.len() == l + 1,
            m == slot(l, 0),
            names@.len() == tyv.len(),
            names@.len() < 8,
            l + 10 < u32::MAX,
            j <= names@.len(),
            st.wf(),
            grows_under(*st, s1, m),
            st.syms@.len() == l + 1 + j,
            ids@ == Seq::new(j as nat, |i: int| slot(l, 1 + i)),
            st.sym(m).members@ == s1.sym(m).members@ + ids@,
            forall|i: int| 0 <= i < tyv.len() ==> !(#[trigger] tyv[i] is ModuleRef),
            rest@ == tyv.skip(j as int),
            forall|i: int|
                0 <= i < j ==> {
                    &&& fresh_symbol(#[trigger] st.sym(slot(l, 1 + i)), names@[i]@, SymKind::Term, Some(m), FLAG_PARAM, ""@)
                    &&& ok@(i, st.sym(slot(l, 1 + i)).ty)
                },
            forall|i: int| 0 <= i < tyv.len() ==> ok@(i, #[trigger] tyv[i]),
        decreases names@.len() - j,
    {
        let ghost before = *st;
        assert(rest@.len() > 0 && rest@[0] == tyv[j as int]);
        let t = rest.remove(0);
        assert(rest@ =~= tyv.skip(j + 1));
        let id = value_param(st, m, names[j], FLAG_PARAM, t);
        proof {
            lemma_grows_under_trans(s1, before, *st, m);
            assert forall|i: int| 0 <= i < j implies kept(*st, before, #[trigger] slot(l, 1 + i)) by {
                lemma_kept_under(*st, before, m, slot(l, 1 + i));
            }
            assert(ids@.push(id) =~= Seq::new((j + 1) as nat, |i: int| slot(l, 1 + i)));
            assert(st.sym(m).members@ =~= s1.sym(m).members@ + ids@.push(id));
        }
        ids.push(id);
        j += 1;
    }
    let ghost s2 = *st;
    let ev = value_param(st, m, "evidence$1", FLAG_PARAM | FLAG_IMPLICIT, applied(tag, tys1(Ty::TypeParam(a))));
    let ghost s3 = *st;
    let mut params = ids.clone();
    params.push(ev);
    let ghost pg = params;
    st.set_params(m, params);
    let ghost s4 = *st;
    let ghost idg = ids@;
    let c1 = vec![ev];
    let ghost c1g = c1@;
    let pss = vec![ids, c1];
    let ghost pssg = pss;
    st.set_paramss(m, pss);
    let ghost s5 = *st;
    let ty = Ty::Method { paramss: vec![sig, tys1(applied(tag, tys1(Ty::TypeParam(a))))], ret: Box::new(ret) };
    let ghost tyg = ty;
    st.set_ty(m, ty);
    proof {
        let k = names@.len() as int;
        lemma_grows_under_trans(s1, s2, s3, m);
        lemma_grows_trans(s0, s1, s3);
        lemma_grows_fresh_slot(s0, s3, s4, m, Symbol { params: pg, ..s3.sym(m) });
        lemma_grows_fresh_slot(s0, s4, s5, m, Symbol { paramss: pssg, ..s4.sym(m) });
        lemma_grows_fresh_slot(s0, s5, *st, m, Symbol { ty: tyg, ..s5.sym(m) });
        reveal_strlit("");
        assert(st.sym(m).jvm_name@ =~= ""@);
        assert(pg@ =~= idg.push(ev));
        assert(c1g == seq![ev]);
        assert(s1.sym(m).members@.len() == 0);
        assert(st.sym(m).members@ =~= idg.push(ev));
        assert(names@.map_values(|x: &str| x@).len() == k);
        assert forall|i: int| 0 <= i < k implies {
            &&& fresh_symbol(#[trigger] st.sym(slot(l, 1 + i)), names@.map_values(|x: &str| x@)[i], SymKind::Term, Some(m), FLAG_PARAM, ""@)
            &&& ok@(i, st.sym(slot(l, 1 + i)).ty)
        } by {
            assert(st.syms@[slot(l, 1 + i).0 as int].same_except_members(s2.syms@[slot(l, 1 + i).0 as int]));
            assert(st.sym(slot(l, 1 + i)).members@ == s2.sym(slot(l, 1 + i)).members@);
        }
        assert(st.syms@[ev.0 as int].same_except_members(s3.syms@[ev.0 as int]));
        assert forall|i: int| 0 <= i < s0.syms@.len() && i != owner.0 implies (#[trigger] st.syms@[i]).members@
            == s0.syms@[i].members@ by {
            assert(st.syms@[i].members@ == s5.syms@[i].members@);
            assert(s5.syms@[i].members@ == s4.syms@[i].members@);
            assert(s4.syms@[i].members@ == s3.syms@[i].members@);
            assert(s3.syms@[i].members@ == s1.syms@[i].members@);
        }
        match st.sym(m).ty {
            Ty::Method { paramss, ret: r } => {
                assert(paramss@[0]@ == sigv);
                assert(*r == retg);
                assert(forall|i: int| 0 <= i < k ==> ok@(i, #[trigger] sigv[i]));
            },
            _ => {},
        }
        assert(evidence_member(
            *st,
            l,
            owner,
            name@,
            names@.map_values(|x: &str| x@),
            ok@,
            tag,
            a,
            ret_ok@,
        ));
    }
    m
}

/// The shape of an `ArrayOps` member with one type parameter `T` and one
/// clause of parameters, over the element type `A`.
#[derive(Clone, Copy, PartialEq, Eq, Structural)]
pub enum ClauseShape {
    /// `groupBy[T](f: A => T): map[T, Array[A]]`.
    GroupBy { map: SymbolId },
    /// `zipAll[T](that: once[T], thisElem: A, thatElem: T): Array[(A, T)]`.
    ZipAll { once: SymbolId, tuple2: SymbolId },
}

/// The `i`-th parameter's type.
pub open spec fn clause_param_ok(shape: ClauseShape, a: SymbolId, t: SymbolId, i: int, ty: Ty) -> bool {
    match shape {
        ClauseShape::GroupBy { .. } => i == 0 && is_fn_type(ty, seq![Ty::TypeParam(a)], Ty::TypeParam(t)),
        ClauseShape::ZipAll { once, .. } => if i == 0 {
            is_applied(ty, once, seq![Ty::TypeParam(t)])
        } else if i == 1 {
            ty == Ty::TypeParam(a)
        } else {
            i == 2 && ty == Ty::TypeParam(t)
        },
    }
}

/// The result type.
pub open spec fn clause_result_ok(shape: ClauseShape, a: SymbolId, t: SymbolId, ty: Ty) -> bool {
    match shape {
        ClauseShape::GroupBy { map } => is_applied(ty, map, seq![Ty::TypeParam(t), Ty::Array(Box::new(Ty::TypeParam(a)))]),
        ClauseShape::ZipAll { tuple2, .. } => ty matches Ty::Array(e) && is_applied(*e, tuple2, seq![Ty::TypeParam(a), Ty::TypeParam(t)]),
    }
}

/// The parameter names.
pub open spec fn clause_names(shape: ClauseShape) -> Seq<Seq<char>> {
    match shape {
        ClauseShape::GroupBy { .. } => seq!["f"@],
        ClauseShape::ZipAll { .. } => seq!["that"@, "thisElem"@, "thatElem"@],
    }
}

fn clause_names_of(shape: ClauseShape) -> (v: Vec<&'static str>)
    ensures
        v@.map_values(|x: &str| x@) == clause_names(shape),
{
    let mut v: Vec<&'static str> = Vec::new();
    match shape {
        ClauseShape::GroupBy { .. } => {
            v.push("f");
        },
        ClauseShape::ZipAll { .. } => {
            v.push("that");
            v.push("thisElem");
            v.push("thatElem");
        },
    }
    assert(v@.map_values(|x: &str| x@) =~= clause_names(shape));
    v
}

fn clause_tys(shape: ClauseShape, a: SymbolId, t: SymbolId) -> (v: Vec<Ty>)
    ensures
        v@.len() == clause_names(shape).len(),
        forall|i: int| 0 <= i < v@.len() ==> clause_param_ok(shape, a, t, i, #[trigger] v@[i]),
{
    let mut v: Vec<Ty> = Vec::new();
    match shape {
        ClauseShape::GroupBy { .. } => {
            v.push(fn1(Ty::TypeParam(a), Ty::TypeParam(t)));
        },
        ClauseShape::ZipAll { once, .. } => {
            v.push(applied(once, tys1(Ty::TypeParam(t))));
            v.push(Ty::TypeParam(a));
            v.push(Ty::TypeParam(t));
        },
    }
    v
}

fn clause_result(shape: ClauseShape, a: SymbolId, t: SymbolId) -> (r: Ty)
    ensures
        clause_result_ok(shape, a, t, r),
{
    match shape {
        ClauseShape::GroupBy { map } => applied(map, tys2(Ty::TypeParam(t), Ty::Array(Box::new(Ty::TypeParam(a))))),
        ClauseShape::ZipAll { tuple2, .. } => Ty::Array(Box::new(applied(tuple2, tys2(Ty::TypeParam(a), Ty::TypeParam(t))))),
    }
}

/// The symbols from slot `l` on are the method `name[tname](..)` of `owner`
/// of this shape: the method, its type parameter, and its parameters.
pub open spec fn clause_member(n: SymbolTable, l: int, owner: SymbolId, name: Seq<char>, tname: Seq<char>, shape: ClauseShape, a: SymbolId) -> bool {
    let names = clause_names(shape);
    let k = names.len() as int;
    let m = slot(l, 0);
    let t = slot(l, 1);
    let ps = Seq::new(k as nat, |i: int| slot(l, 2 + i));
    let s = n.sym(m);
    &&& sym_is(s, name, SymKind::Method, owner, FLAG_FINAL, ""@)
    &&& s.intrinsic == Intrinsic::Plain
    &&& s.tparams@ == seq![t]
    &&& s.params@ == ps
    &&& s.paramss@.len() == 1 && s.paramss@[0]@ == ps
    &&& s.members@ == seq![t] + ps
    &&& (s.ty matches Ty::Method { paramss, ret } && paramss@.len() == 1 && paramss@[0]@.len() == k && (forall|i: int|
        0 <= i < k ==> clause_param_ok(shape, a, t, i, #[trigger] paramss@[0]@[i])) && clause_result_ok(shape, a, t, *ret))
    &&& is_type_param(n.sym(t), t, m, tname)
    &&& forall|i: int|
        0 <= i < k ==> {
            &&& fresh_symbol(#[trigger] n.sym(ps[i]), names[i], SymKind::Term, Some(m), FLAG_PARAM, ""@)
            &&& clause_param_ok(shape, a, t, i, n.sym(ps[i]).ty)
        }
}

/// Declare on `owner` the method `name[tname](..)` of this shape over the
/// element type `a`.
fn clause_method(st: &mut SymbolTable, owner: SymbolId, name: &str, tname: &str, shape: ClauseShape, a: SymbolId) -> (m: SymbolId)
    requires
        old(st).wf(),
        old(st).valid(owner),
        old(st).syms@.len() + 10 < u32::MAX,
    ensures
        final(st).wf(),
        grows_under(*final(st), *old(st), owner),
        final(st).syms@.len() == old(st).syms@.len() + clause_names(shape).len() + 2,
        m == slot(old(st).syms@.len() as int, 0),
        final(st).sym(owner).members@ == old(st).sym(owner).members@.push(m),
        clause_member(*final(st), old(st).syms@.len() as int, owner, name@, tname@, shape, a),
{
    let ghost s0 = *st;
    let ghost l = s0.syms@.len() as int;
    let m = method(st, owner, name, Vec::new(), Ty::Unit, Intrinsic::Plain);
    let ghost s1 = *st;
    let t = type_param(st, m, tname);
    let ghost s1t = *st;
    assert(s1t.valid(m));
    let names = clause_names_of(shape);
    let ghost nv = clause_names(shape);
    let mut rest = clause_tys(shape, a, t);
    let ghost tyv = rest@;
    let mut ids: Vec<SymbolId> = Vec::new();
    let mut j: usize = 0;
    while j < names.len()
        invariant
            s1t.wf(),
            s1t.syms@.len() == l + 2,
            m == slot(l, 0),
            t == slot(l, 1),
            names@.map_values(|x: &str| x@) == nv,
            names@.len() == tyv.len(),
            names@.len() <= 3,
            l + 10 < u32::MAX,
            j <= names@.len(),
            st.wf(),
            st.valid(m),
            grows_under(*st, s1t, m),
            st.syms@.len() == l + 2 + j,
            ids@ == Seq::new(j as nat, |i: int| slot(l, 2 + i)),
            st.sym(m).members@ == s1t.sym(m).members@ + ids@,
            rest@ == tyv.skip(j as int),
            forall|i: int| 0 <= i < tyv.len() ==> clause_param_ok(shape, a, t, i, #[trigger] tyv[i]),
            forall|i: int|
                0 <= i < j ==> {
                    &&& fresh_symbol(#[trigger] st.sym(slot(l, 2 + i)), nv[i], SymKind::Term, Some(m), FLAG_PARAM, ""@)
                    &&& clause_param_ok(shape, a, t, i, st.sym(slot(l, 2 + i)).ty)
                },
        decreases names@.len() - j,
    {
        let ghost before = *st;
        assert(rest@.len() > 0 && rest@[0] == tyv[j as int]);
        let ty = rest.remove(0);
        assert(rest@ =~= tyv.skip(j + 1));
        assert(names@.map_values(|x: &str| x@)[j as int] == names@[j as int]@);
        let id = value_param(st, m, names[j], FLAG_PARAM, ty);
        proof {
            lemma_grows_under_trans(s1t, before, *st, m);
            assert forall|i: int| 0 <= i < j implies kept(*st, before, #[trigger] slot(l, 2 + i)) by {
                lemma_kept_under(*st, before, m, slot(l, 2 + i));
            }
            assert(ids@.push(id) =~= Seq::new((j + 1) as nat, |i: int| slot(l, 2 + i)));
            assert(st.sym(m).members@ =~= s1t.sym(m).members@ + ids@.push(id));
        }
        ids.push(id);
        j += 1;
    }
    let ghost s2 = *st;
    let tv = vec![t];
    let ghost tg = tv;
    st.set_tparams(m, tv);
    let ghost s3 = *st;
    let ghost idg = ids@;
    let pv = ids.clone();
    let ghost pg = pv;
    st.set_params(m, pv);
    let ghost s4 = *st;
    let pss = vec![ids];
    let ghost pssg = pss;
    st.set_paramss(m, pss);
    let ghost s5 = *st;
    let sig = clause_tys(shape, a, t);
    let ghost sigv = sig@;
    let ret = clause_result(shape, a, t);
    let ghost retg = ret;
    let ty = Ty::Method { paramss: vec![sig], ret: Box::new(ret) };
    let ghost tyg = ty;
    st.set_ty(m, ty);
    proof {
        let k = nv.len() as int;
        lemma_grows_trans(s0, s1, s1t);
        lemma_grows_trans(s0, s1t, s2);
        lemma_grows_fresh_slot(s0, s2, s3, m, Symbol { tparams: tg, ..s2.sym(m) });
        lemma_grows_fresh_slot(s0, s3, s4, m, Symbol { params: pg, ..s3.sym(m) });
        lemma_grows_fresh_slot(s0, s4, s5, m, Symbol { paramss: pssg, ..s4.sym(m) });
        lemma_grows_fresh_slot(s0, s5, *st, m, Symbol { ty: tyg, ..s5.sym(m) });
        reveal_strlit("");
        assert(st.sym(m).jvm_name@ =~= ""@);
        assert(tg@ == seq![t]);
        assert(pg@ == idg);
        assert(s1.sym(m).members@.len() == 0);
        assert(s1t.sym(m).members@ =~= seq![t]);
        assert(st.sym(m).members@ =~= seq![t] + idg);
        assert(st.syms@[t.0 as int].same_except_members(s1t.syms@[t.0 as int]));
        assert(st.sym(t).members@ == s1t.sym(t).members@);
        assert forall|i: int| 0 <= i < k implies {
            &&& fresh_symbol(#[trigger] st.sym(slot(l, 2 + i)), nv[i], SymKind::Term, Some(m), FLAG_PARAM, ""@)
            &&& clause_param_ok(shape, a, t, i, st.sym(slot(l, 2 + i)).ty)
        } by {
            assert(st.syms@[slot(l, 2 + i).0 as int].same_except_members(s2.syms@[slot(l, 2 + i).0 as int]));
            assert(st.sym(slot(l, 2 + i)).members@ == s2.sym(slot(l, 2 + i)).members@);
        }
        match st.sym(m).ty {
            Ty::Method { paramss, ret: r } => {
                assert(paramss@[0]@ == sigv);
                assert(*r == retg);
            },
            _ => {},
        }
        assert forall|i: int| 0 <= i < s0.syms@.len() && i != owner.0 implies (#[trigger] st.syms@[i]).members@
            == s0.syms@[i].members@ by {
            assert(st.syms@[i].members@ == s5.syms@[i].members@);
            assert(s5.syms@[i].members@ == s4.syms@[i].members@);
            assert(s4.syms@[i].members@ == s3.syms@[i].members@);
            assert(s3.syms@[i].members@ == s2.syms@[i].members@);
            assert(s2.syms@[i].members@ == s1t.syms@[i].members@);
            assert(s1t.syms@[i].members@ == s1.syms@[i].members@);
        }
    }
    m
}

/// The two symbols from slot `l` on are `ord: ordering[A]`, an implicit
/// parameter held by `aops` itself, and `sorted(implicit ord): Array[A]`.
pub open spec fn sorted_member(n: SymbolTable, l: int, aops: SymbolId, ordering: SymbolId, a: SymbolId) -> bool {
    let (ev, m) = (slot(l, 0), slot(l, 1));
    let s = n.sym(m);
    &&& fresh_symbol(n.sym(ev), "ord"@, SymKind::Term, Some(aops), FLAG_PARAM | FLAG_IMPLICIT, ""@)
    &&& is_applied(n.sym(ev).ty, ordering, seq![Ty::TypeParam(a)])
    &&& sym_is(s, "sorted"@, SymKind::Method, aops, FLAG_FINAL, ""@)
    &&& s.intrinsic == Intrinsic::Plain
    &&& s.tparams@.len() == 0
    &&& s.params@ == seq![ev]
    &&& s.paramss@.len() == 1 && s.paramss@[0]@ == seq![ev]
    &&& s.members@.len() == 0
    &&& (s.ty matches Ty::Method { paramss, ret } && paramss@.len() == 1 && paramss@[0]@.len() == 1 && is_applied(
        paramss@[0]@[0],
        ordering,
        seq![Ty::TypeParam(a)],
    ) && *ret == Ty::Array(Box::new(Ty::TypeParam(a))))
}

/// `sorted(implicit ord: Ordering[A]): Array[A]` on `aops`, whose
/// parameter `aops` holds.
fn add_sorted(st: &mut SymbolTable, aops: SymbolId, ordering: SymbolId, a: SymbolId)
    requires
        old(st).wf(),
        old(st).valid(aops),
        old(st).syms@.len() + 2 < u32::MAX,
    ensures
        final(st).wf(),
        grows_under(*final(st), *old(st), aops),
        final(st).syms@.len() == old(st).syms@.len() + 2,
        final(st).sym(aops).members@ == old(st).sym(aops).members@ + seq![
            slot(old(st).syms@.len() as int, 0),
            slot(old(st).syms@.len() as int, 1),
        ],
        sorted_member(*final(st), old(st).syms@.len() as int, aops, ordering, a),
{
    let ghost s0 = *st;
    let ev = value_param(st, aops, "ord", FLAG_PARAM | FLAG_IMPLICIT, applied(ordering, tys1(Ty::TypeParam(a))));
    let ghost s1 = *st;
    let m = method(st, aops, "sorted", Vec::new(), Ty::Unit, Intrinsic::Plain);
    let ghost s2 = *st;
    let pv = vec![ev];
    let ghost pg = pv;
    st.set_params(m, pv);
    let ghost s3 = *st;
    let c0 = vec![ev];
    let ghost c0g = c0@;
    let pss = vec![c0];
    let ghost pssg = pss;
    st.set_paramss(m, pss);
    let ghost s4 = *st;
    let ty = Ty::Method {
        paramss: vec![tys1(applied(ordering, tys1(Ty::TypeParam(a))))],
        ret: Box::new(Ty::Array(Box::new(Ty::TypeParam(a)))),
    };
    let ghost tyg = ty;
    st.set_ty(m, ty);
    proof {
        lemma_grows_trans(s0, s1, s2);
        lemma_grows_fresh_slot(s0, s2, s3, m, Symbol { params: pg, ..s2.sym(m) });
        lemma_grows_fresh_slot(s0, s3, s4, m, Symbol { paramss: pssg, ..s3.sym(m) });
        lemma_grows_fresh_slot(s0, s4, *st, m, Symbol { ty: tyg, ..s4.sym(m) });
        reveal_strlit("");
        assert(pg@ == seq![ev] && c0g == seq![ev]);
        assert(st.sym(m).jvm_name@ =~= ""@);
        assert(st.syms@[ev.0 as int].same_except_members(s1.syms@[ev.0 as int]));
        assert(st.sym(ev).members@ == s1.sym(ev).members@);
        assert(st.sym(aops).members@ =~= s0.sym(aops).members@ + seq![ev, m]);
        assert forall|i: int| 0 <= i < s0.syms@.len() && i != aops.0 implies (#[trigger] st.syms@[i]).members@
            == s0.syms@[i].members@ by {
            assert(st.syms@[i].members@ == s2.syms@[i].members@);
        }
    }
}

/// The parameter names `p0`, `p1`, ... .
fn positional_names(k: usize) -> (v: Vec<&'static str>)
    requires
        k <= 4,
    ensures
        v@.len() == k,
        v@.map_values(|x: &str| x@) == positional(k as int),
{
    let all = ["p0", "p1", "p2", "p3"];
    let mut v: Vec<&'static str> = Vec::new();
    let mut j: usize = 0;
    while j < k
        invariant
            j <= k <= 4,
            all@.map_values(|x: &str| x@) == positional(4),
            v@.map_values(|x: &str| x@) == positional(j as int),
            v@.len() == j,
        decreases k - j,
    {
        v.push(all[j]);
        assert(v@.map_values(|x: &str| x@) =~= positional(j + 1));
        j += 1;
    }
    v
}

/// The first `k` of the names `p0`, `p1`, `p2`, `p3`.
pub open spec fn positional(k: int) -> Seq<Seq<char>> {
    seq!["p0"@, "p1"@, "p2"@, "p3"@].take(k)
}

/// `name(p0, ..: explicit)(implicit evidence$1: ClassTag[A]): Array[A]` on
/// `aops`, with `ct` the class `ClassTag`; `sig` holds the explicit types
/// again, and `ok(i, ..)` accepts both copies of the `i`-th.
fn add_one_elem_ct_method(
    st: &mut SymbolTable,
    aops: SymbolId,
    ct: SymbolId,
    name: &str,
    explicit: Vec<Ty>,
    sig: Vec<Ty>,
    a: SymbolId,
    ok: Ghost<spec_fn(int, Ty) -> bool>,
) -> (m: SymbolId)
    requires
        old(st).wf(),
        old(st).valid(aops),
        explicit@.len() <= 4,
        sig@.len() == explicit@.len(),
        forall|i: int| 0 <= i < explicit@.len() ==> !(#[trigger] explicit@[i] is ModuleRef),
        forall|i: int| 0 <= i < explicit@.len() ==> ok@(i, #[trigger] explicit@[i]),
        forall|i: int| 0 <= i < sig@.len() ==> ok@(i, #[trigger] sig@[i]),
        old(st).syms@.len() + 10 < u32::MAX,
    ensures
        final(st).wf(),
        grows_under(*final(st), *old(st), aops),
        final(st).syms@.len() == old(st).syms@.len() + explicit@.len() + 2,
        m == slot(old(st).syms@.len() as int, 0),
        final(st).sym(aops).members@ == old(st).sym(aops).members@.push(m),
        evidence_member(
            *final(st),
            old(st).syms@.len() as int,
            aops,
            name@,
            positional(explicit@.len() as int),
            ok@,
            ct,
            a,
            |r: Ty| r == Ty::Array(Box::new(Ty::TypeParam(a))),
        ),
{
    let names = positional_names(explicit.len());
    evidence_method(
        st,
        aops,
        name,
        &names,
        explicit,
        sig,
        ct,
        a,
        Ty::Array(Box::new(Ty::TypeParam(a))),
        ok,
        Ghost(|r: Ty| r == Ty::Array(Box::new(Ty::TypeParam(a)))),
    )
}

/// Every symbol of `o` from slot `lo` on reads the same in `n`.
pub open spec fn frozen_from(n: SymbolTable, o: SymbolTable, lo: int) -> bool {
    forall|i: int| lo <= i < o.syms@.len() ==> kept(n, o, #[trigger] slot(i, 0))
}

proof fn lemma_frozen_trans(a: SymbolTable, b: SymbolTable, c: SymbolTable, lo: int)
    requires
        frozen_from(b, a, lo),
        frozen_from(c, b, lo),
        a.syms@.len() <= b.syms@.len(),
    ensures
        frozen_from(c, a, lo),
{
    assert forall|i: int| lo <= i < a.syms@.len() implies kept(c, a, #[trigger] slot(i, 0)) by {
        assert(kept(b, a, slot(i, 0)));
        assert(kept(c, b, slot(i, 0)));
    }
}

/// A step that only `owner` (below `lo`) gains members through freezes
/// everything from `lo` on.
proof fn lemma_frozen_under(n: SymbolTable, o: SymbolTable, owner: SymbolId, lo: int)
    requires
        grows_under(n, o, owner),
        owner.0 < lo,
        lo >= 0,
        o.syms@.len() < u32::MAX,
    ensures
        frozen_from(n, o, lo),
{
    assert forall|i: int| lo <= i < o.syms@.len() implies kept(n, o, #[trigger] slot(i, 0)) by {
        let x = slot(i, 0);
        assert(x.0 == i);
        assert(n.syms@[i].same_except_members(o.syms@[i]));
        assert(n.syms@[i].members@ == o.syms@[i].members@);
    }
}

proof fn lemma_clause_kept(n: SymbolTable, o: SymbolTable, l: int, owner: SymbolId, name: Seq<char>, tname: Seq<char>, shape: ClauseShape, a: SymbolId)
    requires
        clause_member(o, l, owner, name, tname, shape, a),
        frozen_from(n, o, l),
        l >= 0,
        l + 2 + clause_names(shape).len() <= o.syms@.len(),
        l + 10 < u32::MAX,
    ensures
        clause_member(n, l, owner, name, tname, shape, a),
{
    let k = clause_names(shape).len() as int;
    assert(kept(n, o, slot(l, 0)));
    assert(kept(n, o, slot(l + 1, 0)));
    assert forall|i: int| 0 <= i < k implies kept(n, o, #[trigger] slot(l, 2 + i)) by {
        assert(kept(n, o, slot(l + 2 + i, 0)));
    }
}

proof fn lemma_evidence_kept(
    n: SymbolTable,
    o: SymbolTable,
    l: int,
    owner: SymbolId,
    name: Seq<char>,
    names: Seq<Seq<char>>,
    ok: spec_fn(int, Ty) -> bool,
    tag: SymbolId,
    a: SymbolId,
    ret: spec_fn(Ty) -> bool,
)
    requires
        evidence_member(o, l, owner, name, names, ok, tag, a, ret),
        frozen_from(n, o, l),
        l >= 0,
        l + 2 + names.len() <= o.syms@.len(),
        l + 10 < u32::MAX,
    ensures
        evidence_member(n, l, owner, name, names, ok, tag, a, ret),
{
    let k = names.len() as int;
    assert(kept(n, o, slot(l, 0)));
    assert(kept(n, o, slot(l + 1 + k, 0)));
    assert(slot(l + 1 + k, 0) == slot(l, 1 + k));
    assert forall|i: int| 0 <= i < k implies kept(n, o, #[trigger] slot(l, 1 + i)) by {
        assert(kept(n, o, slot(l + 1 + i, 0)));
    }
}

/// The type `(lt: (A, A) => Boolean): Array[A]`.
pub open spec fn sort_with_type(t: Ty, a: SymbolId) -> bool {
    let ta = Ty::TypeParam(a);
    t matches Ty::Method { paramss, ret } && paramss@.len() == 1 && paramss@[0]@.len() == 1 && is_fn_type(
        paramss@[0]@[0],
        seq![ta, ta],
        Ty::Prim(Prim::Boolean),
    ) && *ret == Ty::Array(Box::new(ta))
}

/// The type `(p: A => Boolean, from: Int): Int`.
pub open spec fn index_from_type(t: Ty, a: SymbolId) -> bool {
    t matches Ty::Method { paramss, ret } && paramss@.len() == 1 && paramss@[0]@.len() == 2 && is_fn_type(
        paramss@[0]@[0],
        seq![Ty::TypeParam(a)],
        Ty::Prim(Prim::Boolean),
    ) && paramss@[0]@[1] == Ty::Prim(Prim::Int) && *ret == Ty::Prim(Prim::Int)
}

/// The `i`-th parameter of `patch(from: Int, other: once[A], replaced: Int)`.
pub open spec fn patch_param_ok(i: int, t: Ty, once: SymbolId, a: SymbolId) -> bool {
    if i == 0 || i == 2 {
        t == Ty::Prim(Prim::Int)
    } else {
        i == 1 && is_applied(t, once, seq![Ty::TypeParam(a)])
    }
}

/// The twelve symbols from slot `l` on are `toSeq: seq[A]`,
/// `toIndexedSeq: idx[A]`, `groupBy[K](f: A => K): map[K, Array[A]]`,
/// `sortBy[B](f: A => B)(implicit ord: Ordering[B]): Array[A]`, the
/// parameter and the method of `sorted(implicit ord: Ordering[A]):
/// Array[A]`, and `sortWith(lt: (A, A) => Boolean): Array[A]` on `aops`.
pub open spec fn sort_members(n: SymbolTable, l: int, aops: SymbolId, ordering: SymbolId, seq_c: SymbolId, idx: SymbolId, map: SymbolId, a: SymbolId) -> bool {
    let ta = Ty::TypeParam(a);
    &&& is_plain_member(n.sym(slot(l, 0)), aops, "toSeq"@, seq![], |r: Ty| is_applied(r, seq_c, seq![ta]))
    &&& is_plain_member(n.sym(slot(l, 1)), aops, "toIndexedSeq"@, seq![], |r: Ty| is_applied(r, idx, seq![ta]))
    &&& clause_member(n, l + 2, aops, "groupBy"@, "K"@, ClauseShape::GroupBy { map }, a)
    &&& shaped_member(n, l + 5, aops, "sortBy"@, "B"@, "f"@, FLAG_PARAM, "ord"@, FLAG_PARAM | FLAG_IMPLICIT, MemberShape::SortBy { ordering }, a)
    &&& sorted_member(n, l + 9, aops, ordering, a)
    &&& is_typed_member(n.sym(slot(l, 11)), aops, "sortWith"@, |t: Ty| sort_with_type(t, a))
}

/// The members of `sort_members`, declared on `aops`.
fn add_sort_members(st: &mut SymbolTable, aops: SymbolId, ordering: SymbolId, seq_c: SymbolId, idx: SymbolId, map: SymbolId, a: SymbolId)
    requires
        old(st).wf(),
        old(st).valid(aops),
        old(st).syms@.len() + 20 < u32::MAX,
    ensures
        final(st).wf(),
        grows_under(*final(st), *old(st), aops),
        frozen_from(*final(st), *old(st), aops.0 + 1),
        final(st).syms@.len() == old(st).syms@.len() + 12,
        ({
            let l = old(st).syms@.len() as int;
            final(st).sym(aops).members@ == old(st).sym(aops).members@ + seq![
                slot(l, 0),
                slot(l, 1),
                slot(l, 2),
                slot(l, 5),
                slot(l, 9),
                slot(l, 10),
                slot(l, 11),
            ]
        }),
        sort_members(*final(st), old(st).syms@.len() as int, aops, ordering, seq_c, idx, map, a),
{
    let ghost s0 = *st;
    let ghost l = s0.syms@.len() as int;
    let m0 = method(st, aops, "toSeq", Vec::new(), applied(seq_c, tys1(Ty::TypeParam(a))), Intrinsic::Plain);
    let ghost s1 = *st;
    let m1 = method(st, aops, "toIndexedSeq", Vec::new(), applied(idx, tys1(Ty::TypeParam(a))), Intrinsic::Plain);
    let ghost s2 = *st;
    clause_method(st, aops, "groupBy", "K", ClauseShape::GroupBy { map }, a);
    let ghost s3 = *st;
    two_clause_method(st, aops, "sortBy", "B", "f", FLAG_PARAM, "ord", FLAG_PARAM | FLAG_IMPLICIT, MemberShape::SortBy { ordering }, a);
    let ghost s4 = *st;
    add_sorted(st, aops, ordering, a);
    let ghost s5 = *st;
    let lt = fn2(Ty::TypeParam(a), Ty::TypeParam(a), Ty::Prim(Prim::Boolean));
    let m5 = method(st, aops, "sortWith", tys1(lt), Ty::Array(Box::new(Ty::TypeParam(a))), Intrinsic::Plain);
    proof {
        let n = *st;
        reveal_strlit("");
        assert(s1.sym(m0).jvm_name@ =~= ""@);
        assert(s2.sym(m1).jvm_name@ =~= ""@);
        assert(n.sym(m5).jvm_name@ =~= ""@);
        match n.sym(m5).ty {
            Ty::Method { paramss, ret } => {
                assert(paramss@.map_values(|c: Vec<Ty>| c@).len() == paramss@.len());
                assert(paramss@.map_values(|c: Vec<Ty>| c@)[0] == paramss@[0]@);
            },
            _ => {},
        }
        assert(grows_under(s1, s0, aops));
        assert(grows_under(s2, s1, aops));
        assert(grows_under(s4, s3, aops));
        assert(grows_under(n, s5, aops));
        lemma_grows_under_trans(s0, s1, s2, aops);
        lemma_grows_under_trans(s0, s2, s3, aops);
        lemma_grows_under_trans(s0, s3, s4, aops);
        lemma_grows_under_trans(s0, s4, s5, aops);
        lemma_grows_under_trans(s0, s5, n, aops);
        let lo = aops.0 + 1;
        lemma_frozen_under(s1, s0, aops, lo);
        lemma_frozen_under(s2, s1, aops, lo);
        lemma_frozen_under(s3, s2, aops, lo);
        lemma_frozen_under(s4, s3, aops, lo);
        lemma_frozen_under(s5, s4, aops, lo);
        lemma_frozen_under(n, s5, aops, lo);
        lemma_frozen_trans(s4, s5, n, lo);
        lemma_frozen_trans(s3, s4, n, lo);
        lemma_frozen_trans(s2, s3, n, lo);
        lemma_frozen_trans(s1, s2, n, lo);
        lemma_frozen_trans(s0, s1, n, lo);
        assert(kept(n, s1, slot(l, 0)));
        assert(kept(n, s2, slot(l + 1, 0)));
        lemma_clause_kept(n, s3, l + 2, aops, "groupBy"@, "K"@, ClauseShape::GroupBy { map }, a);
        assert forall|k: int| 0 <= k < 4 implies kept(n, s4, #[trigger] slot(l + 5, k)) by {
            assert(kept(n, s4, slot(l + 5 + k, 0)));
        }
        lemma_shaped_kept(s4, n, l + 5, aops, "sortBy"@, "B"@, "f"@, FLAG_PARAM, "ord"@, FLAG_PARAM | FLAG_IMPLICIT, MemberShape::SortBy { ordering }, a);
        assert(kept(n, s5, slot(l + 9, 0)));
        assert(kept(n, s5, slot(l + 10, 0)));
        assert(n.sym(aops).members@ =~= s0.sym(aops).members@ + seq![
            slot(l, 0),
            slot(l, 1),
            slot(l, 2),
            slot(l, 5),
            slot(l, 9),
            slot(l, 10),
            slot(l, 11),
        ]);
    }
}

/// The eight symbols from slot `l` on are `zipAll[B](that: once[B],
/// thisElem: A, thatElem: B): Array[(A, B)]`, `indexWhere(p: A =>
/// Boolean): Int`, `indexWhere(p: A => Boolean, from: Int): Int` and
/// `lastIndexOf(elem: A, end: Int): Int` on `aops`.
pub open spec fn index_members(n: SymbolTable, l: int, aops: SymbolId, once: SymbolId, tuple2: SymbolId, a: SymbolId) -> bool {
    &&& clause_member(n, l, aops, "zipAll"@, "B"@, ClauseShape::ZipAll { once, tuple2 }, a)
    &&& is_ops_member_with(n.sym(slot(l, 5)), aops, "indexWhere"@, OpsParams::Pred, a, |r: Ty| r == Ty::Prim(Prim::Int))
    &&& is_typed_member(n.sym(slot(l, 6)), aops, "indexWhere"@, |t: Ty| index_from_type(t, a))
    &&& is_plain_member(
        n.sym(slot(l, 7)),
        aops,
        "lastIndexOf"@,
        seq![Ty::TypeParam(a), Ty::Prim(Prim::Int)],
        |r: Ty| r == Ty::Prim(Prim::Int),
    )
}

/// The members of `index_members`, declared on `aops`.
fn add_index_members(st: &mut SymbolTable, aops: SymbolId, once: SymbolId, tuple2: SymbolId, a: SymbolId)
    requires
        old(st).wf(),
        old(st).valid(aops),
        old(st).syms@.len() + 20 < u32::MAX,
    ensures
        final(st).wf(),
        grows_under(*final(st), *old(st), aops),
        frozen_from(*final(st), *old(st), aops.0 + 1),
        final(st).syms@.len() == old(st).syms@.len() + 8,
        ({
            let l = old(st).syms@.len() as int;
            final(st).sym(aops).members@ == old(st).sym(aops).members@ + seq![slot(l, 0), slot(l, 5), slot(l, 6), slot(l, 7)]
        }),
        index_members(*final(st), old(st).syms@.len() as int, aops, once, tuple2, a),
{
    let ghost s0 = *st;
    let ghost l = s0.syms@.len() as int;
    clause_method(st, aops, "zipAll", "B", ClauseShape::ZipAll { once, tuple2 }, a);
    let ghost s1 = *st;
    ops_method(st, aops, "indexWhere", OpsParams::Pred, a, Ty::Prim(Prim::Int));
    let ghost s2 = *st;
    let p = fn1(Ty::TypeParam(a), Ty::Prim(Prim::Boolean));
    let m2 = method(st, aops, "indexWhere", tys2(p, Ty::Prim(Prim::Int)), Ty::Prim(Prim::Int), Intrinsic::Plain);
    let ghost s3 = *st;
    let m3 = method(st, aops, "lastIndexOf", tys2(Ty::TypeParam(a), Ty::Prim(Prim::Int)), Ty::Prim(Prim::Int), Intrinsic::Plain);
    proof {
        let n = *st;
        reveal_strlit("");
        assert(s3.sym(m2).jvm_name@ =~= ""@);
        assert(n.sym(m3).jvm_name@ =~= ""@);
        match s3.sym(m2).ty {
            Ty::Method { paramss, ret } => {
                assert(paramss@.map_values(|c: Vec<Ty>| c@).len() == paramss@.len());
                assert(paramss@.map_values(|c: Vec<Ty>| c@)[0] == paramss@[0]@);
            },
            _ => {},
        }
        assert(grows_under(s2, s1, aops));
        assert(grows_under(s3, s2, aops));
        assert(grows_under(n, s3, aops));
        lemma_grows_under_trans(s0, s1, s2, aops);
        lemma_grows_under_trans(s0, s2, s3, aops);
        lemma_grows_under_trans(s0, s3, n, aops);
        let lo = aops.0 + 1;
        lemma_frozen_under(s1, s0, aops, lo);
        lemma_frozen_under(s2, s1, aops, lo);
        lemma_frozen_under(s3, s2, aops, lo);
        lemma_frozen_under(n, s3, aops, lo);
        lemma_frozen_trans(s2, s3, n, lo);
        lemma_frozen_trans(s1, s2, n, lo);
        lemma_frozen_trans(s0, s1, n, lo);
        lemma_clause_kept(n, s1, l, aops, "zipAll"@, "B"@, ClauseShape::ZipAll { once, tuple2 }, a);
        assert(kept(n, s2, slot(l + 5, 0)));
        assert(kept(n, s3, slot(l + 6, 0)));
        assert(n.sym(aops).members@ =~= s0.sym(aops).members@ + seq![slot(l, 0), slot(l, 5), slot(l, 6), slot(l, 7)]);
    }
}

/// The twenty-one symbols from slot `l` on are, on `aops`, with `ct` the
/// class `ClassTag` and `once` the class `IterableOnce`:
/// `patch(from: Int, other: once[A], replaced: Int)`, `updated(p0: Int, p1:
/// A)`, `appended(p0: A)`, `prepended(p0: A)`, `concat(suffix: once[A])`
/// and `++(suffix: once[A])`, each followed by `(implicit evidence$1:
/// ct[A]): Array[A]`.
pub open spec fn ct_members(n: SymbolTable, l: int, aops: SymbolId, ct: SymbolId, once: SymbolId, a: SymbolId) -> bool {
    let ta = Ty::TypeParam(a);
    let arr = |r: Ty| r == Ty::Array(Box::new(ta));
    let elem = |i: int, t: Ty| i == 0 && t == ta;
    let suffix = |i: int, t: Ty| i == 0 && is_applied(t, once, seq![ta]);
    &&& evidence_member(n, l, aops, "patch"@, seq!["from"@, "other"@, "replaced"@], |i: int, t: Ty| patch_param_ok(i, t, once, a), ct, a, arr)
    &&& evidence_member(n, l + 5, aops, "updated"@, positional(2), |i: int, t: Ty| (i == 0 && t == Ty::Prim(Prim::Int)) || (i == 1 && t == ta), ct, a, arr)
    &&& evidence_member(n, l + 9, aops, "appended"@, positional(1), elem, ct, a, arr)
    &&& evidence_member(n, l + 12, aops, "prepended"@, positional(1), elem, ct, a, arr)
    &&& evidence_member(n, l + 15, aops, "concat"@, seq!["suffix"@], suffix, ct, a, arr)
    &&& evidence_member(n, l + 18, aops, "++"@, seq!["suffix"@], suffix, ct, a, arr)
}

/// The members of `ct_members`, declared on `aops`.
#[verifier::spinoff_prover]
#[verifier::rlimit(60)]
fn add_ct_members(st: &mut SymbolTable, aops: SymbolId, ct: SymbolId, once: SymbolId, a: SymbolId)
    requires
        old(st).wf(),
        old(st).valid(aops),
        old(st).syms@.len() + 40 < u32::MAX,
    ensures
        final(st).wf(),
        grows_under(*final(st), *old(st), aops),
        frozen_from(*final(st), *old(st), aops.0 + 1),
        final(st).syms@.len() == old(st).syms@.len() + 21,
        ({
            let l = old(st).syms@.len() as int;
            final(st).sym(aops).members@ == old(st).sym(aops).members@ + seq![
                slot(l, 0),
                slot(l, 5),
                slot(l, 9),
                slot(l, 12),
                slot(l, 15),
                slot(l, 18),
            ]
        }),
        ct_members(*final(st), old(st).syms@.len() as int, aops, ct, once, a),
{
    let ghost s0 = *st;
    let ghost l = s0.syms@.len() as int;
    let arr_ok = Ghost(|r: Ty| r == Ty::Array(Box::new(Ty::TypeParam(a))));
    // patch(from: Int, other: IterableOnce[A], replaced: Int)
    let mut pn: Vec<&str> = Vec::new();
    pn.push("from");
    pn.push("other");
    pn.push("replaced");
    let mut pt: Vec<Ty> = Vec::new();
    pt.push(Ty::Prim(Prim::Int));
    pt.push(applied(once, tys1(Ty::TypeParam(a))));
    pt.push(Ty::Prim(Prim::Int));
    let mut ps: Vec<Ty> = Vec::new();
    ps.push(Ty::Prim(Prim::Int));
    ps.push(applied(once, tys1(Ty::TypeParam(a))));
    ps.push(Ty::Prim(Prim::Int));
    let ghost pok = |i: int, t: Ty| patch_param_ok(i, t, once, a);
    proof {
        assert(pn@.map_values(|x: &str| x@) =~= seq!["from"@, "other"@, "replaced"@]);
    }
    evidence_method(st, aops, "patch", &pn, pt, ps, ct, a, Ty::Array(Box::new(Ty::TypeParam(a))), Ghost(pok), arr_ok);
    let ghost s1 = *st;
    // updated(p0: Int, p1: A)
    let ghost uok = |i: int, t: Ty| (i == 0 && t == Ty::Prim(Prim::Int)) || (i == 1 && t == Ty::TypeParam(a));
    add_one_elem_ct_method(
        st,
        aops,
        ct,
        "updated",
        tys2(Ty::Prim(Prim::Int), Ty::TypeParam(a)),
        tys2(Ty::Prim(Prim::Int), Ty::TypeParam(a)),
        a,
        Ghost(uok),
    );
    let ghost s2 = *st;
    let ghost eok = |i: int, t: Ty| i == 0 && t == Ty::TypeParam(a);
    add_one_elem_ct_method(st, aops, ct, "appended", tys1(Ty::TypeParam(a)), tys1(Ty::TypeParam(a)), a, Ghost(eok));
    let ghost s3 = *st;
    add_one_elem_ct_method(st, aops, ct, "prepended", tys1(Ty::TypeParam(a)), tys1(Ty::TypeParam(a)), a, Ghost(eok));
    let ghost s4 = *st;
    // concat(suffix: IterableOnce[A]) and its alias `++`
    let ghost sok = |i: int, t: Ty| i == 0 && is_applied(t, once, seq![Ty::TypeParam(a)]);
    let mut sn: Vec<&str> = Vec::new();
    sn.push("suffix");
    proof {
        assert(sn@.map_values(|x: &str| x@) =~= seq!["suffix"@]);
    }
    evidence_method(
        st,
        aops,
        "concat",
        &sn,
        tys1(applied(once, tys1(Ty::TypeParam(a)))),
        tys1(applied(once, tys1(Ty::TypeParam(a)))),
        ct,
        a,
        Ty::Array(Box::new(Ty::TypeParam(a))),
        Ghost(sok),
        arr_ok,
    );
    let ghost s5 = *st;
    evidence_method(
        st,
        aops,
        "++",
        &sn,
        tys1(applied(once, tys1(Ty::TypeParam(a)))),
        tys1(applied(once, tys1(Ty::TypeParam(a)))),
        ct,
        a,
        Ty::Array(Box::new(Ty::TypeParam(a))),
        Ghost(sok),
        arr_ok,
    );
    proof {
        let n = *st;
        let lo = aops.0 + 1;
        lemma_grows_under_trans(s0, s1, s2, aops);
        lemma_grows_under_trans(s0, s2, s3, aops);
        lemma_grows_under_trans(s0, s3, s4, aops);
        lemma_grows_under_trans(s0, s4, s5, aops);
        lemma_grows_under_trans(s0, s5, n, aops);
        lemma_frozen_under(s1, s0, aops, lo);
        lemma_frozen_under(s2, s1, aops, lo);
        lemma_frozen_under(s3, s2, aops, lo);
        lemma_frozen_under(s4, s3, aops, lo);
        lemma_frozen_under(s5, s4, aops, lo);
        lemma_frozen_under(n, s5, aops, lo);
        lemma_frozen_trans(s4, s5, n, lo);
        lemma_frozen_trans(s3, s4, n, lo);
        lemma_frozen_trans(s2, s3, n, lo);
        lemma_frozen_trans(s1, s2, n, lo);
        lemma_frozen_trans(s0, s1, n, lo);
        lemma_evidence_kept(n, s1, l, aops, "patch"@, seq!["from"@, "other"@, "replaced"@], pok, ct, a, arr_ok@);
        lemma_evidence_kept(n, s2, l + 5, aops, "updated"@, positional(2), uok, ct, a, arr_ok@);
        lemma_evidence_kept(n, s3, l + 9, aops, "appended"@, positional(1), eok, ct, a, arr_ok@);
        lemma_evidence_kept(n, s4, l + 12, aops, "prepended"@, positional(1), eok, ct, a, arr_ok@);
        lemma_evidence_kept(n, s5, l + 15, aops, "concat"@, seq!["suffix"@], sok, ct, a, arr_ok@);
        assert(n.sym(aops).members@ =~= s0.sym(aops).members@ + seq![
            slot(l, 0),
            slot(l, 5),
            slot(l, 9),
            slot(l, 12),
            slot(l, 15),
            slot(l, 18),
        ]);
    }
}

/// `sort_members` depends only on its own slots.
proof fn lemma_sort_members_kept(n: SymbolTable, o: SymbolTable, l: int, aops: SymbolId, ordering: SymbolId, seq_c: SymbolId, idx: SymbolId, map: SymbolId, a: SymbolId)
    requires
        sort_members(o, l, aops, ordering, seq_c, idx, map, a),
        frozen_from(n, o, l),
        l >= 0,
        l + 12 <= o.syms@.len(),
        l + 20 < u32::MAX,
    ensures
        sort_members(n, l, aops, ordering, seq_c, idx, map, a),
{
    assert(kept(n, o, slot(l, 0)));
    assert(kept(n, o, slot(l + 1, 0)));
    lemma_clause_kept(n, o, l + 2, aops, "groupBy"@, "K"@, ClauseShape::GroupBy { map }, a);
    assert forall|k: int| 0 <= k < 4 implies kept(n, o, #[trigger] slot(l + 5, k)) by {
        assert(kept(n, o, slot(l + 5 + k, 0)));
    }
    lemma_shaped_kept(o, n, l + 5, aops, "sortBy"@, "B"@, "f"@, FLAG_PARAM, "ord"@, FLAG_PARAM | FLAG_IMPLICIT, MemberShape::SortBy { ordering }, a);
    assert(kept(n, o, slot(l + 9, 0)));
    assert(kept(n, o, slot(l + 10, 0)));
    assert(kept(n, o, slot(l + 11, 0)));
}

/// `index_members` depends only on its own slots.
proof fn lemma_index_members_kept(n: SymbolTable, o: SymbolTable, l: int, aops: SymbolId, once: SymbolId, tuple2: SymbolId, a: SymbolId)
    requires
        index_members(o, l, aops, once, tuple2, a),
        frozen_from(n, o, l),
        l >= 0,
        l + 8 <= o.syms@.len(),
        l + 20 < u32::MAX,
    ensures
        index_members(n, l, aops, once, tuple2, a),
{
    lemma_clause_kept(n, o, l, aops, "zipAll"@, "B"@, ClauseShape::ZipAll { once, tuple2 }, a);
    assert(kept(n, o, slot(l + 5, 0)));
    assert(kept(n, o, slot(l + 6, 0)));
    assert(kept(n, o, slot(l + 7, 0)));
}

/// `find_iterable_once` touches nothing from slot `lo` on but what it
/// declares, when `coll` and the list class lie below `lo`.
proof fn lemma_once_frozen(o: SymbolTable, n: SymbolTable, coll: SymbolId, found: Option<SymbolId>, ioc: SymbolId, lo: int)
    requires
        iterable_once_found(o, n, coll, found, ioc),
        o.list_sym is Some,
        o.list_sym.unwrap().0 < lo,
        coll.0 < lo,
        0 <= lo,
        o.syms@.len() + 2 < u32::MAX,
    ensures
        frozen_from(n, o, lo),
{
    let list = o.list_sym.unwrap();
    match found {
        Some(c) => {
            assert forall|i: int| lo <= i < o.syms@.len() implies kept(n, o, #[trigger] slot(i, 0)) by {
                assert(slot(i, 0).0 == i);
            }
        },
        None => {
            let p = choose|p: SymbolTable|
                {
                    &&& p.wf()
                    &&& grows_under(p, o, coll)
                    &&& p.syms@.len() == o.syms@.len() + 2
                    &&& ioc == slot(o.syms@.len() as int, 0)
                    &&& p.sym(coll).members@ == o.sym(coll).members@.push(ioc)
                    &&& sym_is(p.sym(ioc), "IterableOnce"@, SymKind::Class, coll, iface_flags(), "scala/collection/IterableOnce"@)
                    &&& p.sym(ioc).parents@ == seq![Ty::AnyRef]
                    &&& p.sym(ioc).tparams@ == seq![slot(o.syms@.len() as int, 1)]
                    &&& p.sym(ioc).members@ == seq![slot(o.syms@.len() as int, 1)]
                    &&& is_type_param(p.sym(slot(o.syms@.len() as int, 1)), slot(o.syms@.len() as int, 1), ioc, "A"@)
                    &&& #[trigger] list_extended(p, n, ioc)
                };
            lemma_frozen_under(p, o, coll, lo);
            assert(p.list_sym == o.list_sym);
            assert forall|i: int| lo <= i < o.syms@.len() implies kept(n, o, #[trigger] slot(i, 0)) by {
                assert(slot(i, 0).0 == i);
                assert(kept(p, o, slot(i, 0)));
            }
        },
    }
}

/// The list class's parents in `n` are those of `o`, and `ioc[X]` after
/// them where `List[X]` had a type parameter and no parent naming `ioc`.
pub open spec fn list_parents_extended(o: SymbolTable, n: SymbolTable, ioc: SymbolId) -> bool {
    let list = o.list_sym.unwrap();
    let ps = o.sym(list).parents@;
    if o.sym(list).tparams@.len() > 0 && !names_class(ps, ioc) {
        &&& n.sym(list).parents@.len() == ps.len() + 1
        &&& n.sym(list).parents@.take(ps.len() as int) == ps
        &&& is_applied(n.sym(list).parents@.last(), ioc, seq![Ty::TypeParam(o.sym(list).tparams@[0])])
    } else {
        n.sym(list).parents@ == ps
    }
}

/// `IterableOnce[A]` was declared at `ioc` under `coll`, with its type
/// parameter in the next slot.
pub open spec fn iterable_once_declared(n: SymbolTable, ioc: SymbolId, coll: SymbolId) -> bool {
    let ia = slot(ioc.0 as int, 1);
    &&& sym_is(n.sym(ioc), "IterableOnce"@, SymKind::Class, coll, iface_flags(), "scala/collection/IterableOnce"@)
    &&& n.sym(ioc).parents@ == seq![Ty::AnyRef]
    &&& n.sym(ioc).tparams@ == seq![ia]
    &&& n.sym(ioc).members@ == seq![ia]
    &&& is_type_param(n.sym(ia), ia, ioc, "A"@)
}

/// What `iterable_once_found` says, stated against the table before.
proof fn lemma_once_facts(o: SymbolTable, n: SymbolTable, coll: SymbolId, found: Option<SymbolId>, ioc: SymbolId)
    requires
        o.wf(),
        o.valid(coll),
        o.list_sym is Some,
        iterable_once_found(o, n, coll, found, ioc),
        o.syms@.len() + 2 < u32::MAX,
    ensures
        n.scope == o.scope,
        n.same_well_known(o),
        n.syms@.len() == o.syms@.len() + (if found is Some { 0int } else { 2int }),
        found matches Some(c) ==> ioc == c,
        found is None ==> ioc == slot(o.syms@.len() as int, 0) && iterable_once_declared(n, ioc, coll),
        forall|i: int|
            0 <= i < o.syms@.len() ==> {
                &&& i != o.list_sym.unwrap().0 ==> (#[trigger] n.syms@[i]).same_except_members(o.syms@[i])
                &&& n.syms@[i].members@ == o.syms@[i].members@ + (if i == coll.0 && found is None {
                    seq![ioc]
                } else {
                    seq![]
                })
            },
        same_but_members_parents(n.sym(o.list_sym.unwrap()), o.sym(o.list_sym.unwrap())),
        list_parents_extended(o, n, ioc),
        o.sym(o.list_sym.unwrap()).tparams@.len() > 0 ==> names_class(n.sym(o.list_sym.unwrap()).parents@, ioc),
{
    let list = o.list_sym.unwrap();
    let ps = o.sym(list).parents@;
    match found {
        Some(c) => {
            if o.sym(list).tparams@.len() > 0 && !names_class(ps, ioc) {
                assert(SymbolTable::class_of_ty(n.sym(list).parents@[ps.len() as int]) == Some(ioc));
            }
            assert forall|i: int| 0 <= i < o.syms@.len() implies n.syms@[i].members@ == o.syms@[i].members@ + (if i
                == coll.0 && found is None {
                seq![ioc]
            } else {
                seq![]
            }) by {
                assert(o.syms@[i].members@ + seq![] =~= o.syms@[i].members@);
            }
        },
        None => {
            let l = o.syms@.len() as int;
            let p = choose|p: SymbolTable|
                {
                    &&& p.wf()
                    &&& grows_under(p, o, coll)
                    &&& p.syms@.len() == l + 2
                    &&& ioc == slot(l, 0)
                    &&& p.sym(coll).members@ == o.sym(coll).members@.push(ioc)
                    &&& sym_is(p.sym(ioc), "IterableOnce"@, SymKind::Class, coll, iface_flags(), "scala/collection/IterableOnce"@)
                    &&& p.sym(ioc).parents@ == seq![Ty::AnyRef]
                    &&& p.sym(ioc).tparams@ == seq![slot(l, 1)]
                    &&& p.sym(ioc).members@ == seq![slot(l, 1)]
                    &&& is_type_param(p.sym(slot(l, 1)), slot(l, 1), ioc, "A"@)
                    &&& #[trigger] list_extended(p, n, ioc)
                };
            assert(p.syms@[list.0 as int].same_except_members(o.syms@[list.0 as int]));
            assert(p.sym(list).parents@ == ps);
            assert forall|k: int| 0 <= k < ps.len() implies SymbolTable::class_of_ty(#[trigger] ps[k]) != Some(ioc) by {
                assert(o.parent_ok(o.syms@[list.0 as int].parents@[k]));
            }
            if o.sym(list).tparams@.len() > 0 {
                assert(SymbolTable::class_of_ty(n.sym(list).parents@[ps.len() as int]) == Some(ioc));
            }
            assert(slot(l, 1) != list && ioc != list);
            assert(n.syms@[ioc.0 as int] == p.syms@[ioc.0 as int]);
            assert(n.syms@[slot(l, 1).0 as int] == p.syms@[slot(l, 1).0 as int]);
            assert forall|i: int| 0 <= i < o.syms@.len() implies {
                &&& i != list.0 ==> (#[trigger] n.syms@[i]).same_except_members(o.syms@[i])
                &&& n.syms@[i].members@ == o.syms@[i].members@ + (if i == coll.0 && found is None {
                    seq![ioc]
                } else {
                    seq![]
                })
            } by {
                assert(p.syms@[i].same_except_members(o.syms@[i]));
                assert(n.syms@[i].members@ == p.syms@[i].members@);
                if i == coll.0 {
                    assert(o.syms@[i].members@.push(ioc) =~= o.syms@[i].members@ + seq![ioc]);
                } else {
                    assert(o.syms@[i].members@ + seq![] =~= o.syms@[i].members@);
                }
            }
        },
    }
}

/// What `add_array_ops_simple_extensions` makes of `o`, giving `n`: the
/// members of `sort_members` from slot `l` on; then `IterableOnce` (the
/// class of that name in `coll`, else a new trait, which takes two slots),
/// which the list class is made to extend; then the members of
/// `index_members` and of `ct_members`. `Seq`, `IndexedSeq` and `Map` are
/// the classes of those names in `scala`, `ClassTag` the one in `reflect`.
pub open spec fn simple_extensions_installed(
    o: SymbolTable,
    n: SymbolTable,
    aops: SymbolId,
    tuple2: SymbolId,
    ordering: SymbolId,
    reflect: SymbolId,
    coll: SymbolId,
) -> bool {
    let l = o.syms@.len() as int;
    let a = o.sym(aops).tparams@[0];
    let scala = o.scala_pkg.unwrap();
    let list = o.list_sym.unwrap();
    let found = first_class_named(o, o.sym(coll).members@, "IterableOnce"@, false, 0);
    let ioc = match found {
        Some(c) => c,
        None => slot(l, 12),
    };
    let q = l + 12 + (if found is Some { 0int } else { 2int });
    let first = seq![slot(l, 0), slot(l, 1), slot(l, 2), slot(l, 5), slot(l, 9), slot(l, 10), slot(l, 11)];
    let declared = if found is None { seq![ioc] } else { seq![] };
    let rest = seq![
        slot(q, 0),
        slot(q, 5),
        slot(q, 6),
        slot(q, 7),
        slot(q + 8, 0),
        slot(q + 8, 5),
        slot(q + 8, 9),
        slot(q + 8, 12),
        slot(q + 8, 15),
        slot(q + 8, 18),
    ];
    &&& n.syms@.len() == q + 29
    &&& n.scope == o.scope
    &&& n.same_well_known(o)
    &&& sort_members(n, l, aops, ordering, class_in(o, scala, "Seq"@, true), class_in(o, scala, "IndexedSeq"@, true), class_in(o, scala, "Map"@, true), a)
    &&& index_members(n, q, aops, ioc, tuple2, a)
    &&& ct_members(n, q + 8, aops, class_in(o, reflect, "ClassTag"@, false), ioc, a)
    &&& found is None ==> iterable_once_declared(n, ioc, coll)
    &&& forall|i: int|
        0 <= i < l ==> {
            &&& i != list.0 ==> (#[trigger] n.syms@[i]).same_except_members(o.syms@[i])
            &&& n.syms@[i].members@ == o.syms@[i].members@ + (if i == aops.0 { first } else { seq![] }) + (if i == coll.0 {
                declared
            } else {
                seq![]
            }) + (if i == aops.0 { rest } else { seq![] })
        }
    &&& same_but_members_parents(n.sym(list), o.sym(list))
    &&& list_parents_extended(o, n, ioc)
}

/// The members `ArrayOps` has as extension methods of its own: `toSeq`,
/// `toIndexedSeq`, `groupBy`, `sortBy`, `sorted`, `sortWith`, `zipAll`,
/// the two `indexWhere`, `lastIndexOf`, `patch`, `updated`, `appended`,
/// `prepended`, `concat` and `++`, with `tuple2` the class `Tuple2`,
/// `ordering` the class `Ordering`, `reflect` the package `scala.reflect`
/// and `coll` the package `scala.collection`.
#[verifier::spinoff_prover]
#[verifier::rlimit(100)]
pub fn add_array_ops_simple_extensions(st: &mut SymbolTable, aops: SymbolId, tuple2: SymbolId, ordering: SymbolId, reflect: SymbolId, coll: SymbolId)
    requires
        old(st).wf(),
        old(st).valid(aops),
        old(st).valid(reflect),
        old(st).valid(coll),
        old(st).scala_pkg is Some,
        old(st).list_sym is Some,
        old(st).sym(aops).tparams@.len() > 0,
        old(st).syms@.len() + 100 < u32::MAX,
    ensures
        final(st).wf(),
        simple_extensions_installed(*old(st), *final(st), aops, tuple2, ordering, reflect, coll),
{
    let ghost s0 = *st;
    let ghost l = s0.syms@.len() as int;
    let ct = lookup_class(st, reflect, "ClassTag", false);
    let a = st.get(aops).tparams[0];
    let scala = st.scala_pkg.unwrap();
    let seq_c = lookup_class(st, scala, "Seq", true);
    let idx = lookup_class(st, scala, "IndexedSeq", true);
    let map = lookup_class(st, scala, "Map", true);
    // Nothing declared before `IterableOnce` is wanted is a class, so the
    // lookup may as well be made first.
    let found = find_class(st, coll, "IterableOnce", false);
    add_sort_members(st, aops, ordering, seq_c, idx, map, a);
    let ghost s1 = *st;
    let once = iterable_once_from(st, coll, found);
    let ghost s2 = *st;
    add_index_members(st, aops, once, tuple2, a);
    let ghost s3 = *st;
    extend_list_with(st, once);
    let ghost s4 = *st;
    add_ct_members(st, aops, ct, once, a);
    proof {
        let n = *st;
        let list = s0.list_sym.unwrap();
        lemma_once_facts(s1, s2, coll, found, once);
        let q = s2.syms@.len() as int;
        // the second lookup finds what the first one gave, which the list
        // class already extends
        assert(s3.syms@[list.0 as int].same_except_members(s2.syms@[list.0 as int]));
        assert(s1.syms@[list.0 as int].same_except_members(s0.syms@[list.0 as int]));
        assert(s4 == s3);
        // what each part declared stays as it was
        lemma_once_frozen(s1, s2, coll, found, once, l);
        lemma_frozen_under(s3, s2, aops, l);
        lemma_frozen_under(n, s4, aops, l);
        lemma_frozen_trans(s2, s3, n, l);
        lemma_frozen_trans(s1, s2, n, l);
        lemma_sort_members_kept(n, s1, l, aops, ordering, seq_c, idx, map, a);
        lemma_frozen_under(n, s3, aops, q);
        lemma_index_members_kept(n, s3, q, aops, once, tuple2, a);
        if found is None {
            assert(kept(n, s2, slot(l + 12, 0)));
            assert(kept(n, s2, slot(l + 13, 0)));
        }
        lemma_grows_trans(s2, s3, n);
        // the symbols below `l`
        let first = seq![slot(l, 0), slot(l, 1), slot(l, 2), slot(l, 5), slot(l, 9), slot(l, 10), slot(l, 11)];
        let rest = seq![
            slot(q, 0),
            slot(q, 5),
            slot(q, 6),
            slot(q, 7),
            slot(q + 8, 0),
            slot(q + 8, 5),
            slot(q + 8, 9),
            slot(q + 8, 12),
            slot(q + 8, 15),
            slot(q + 8, 18),
        ];
        let declared = if found is None { seq![once] } else { seq![] };
        assert forall|i: int| 0 <= i < l implies {
            &&& i != list.0 ==> (#[trigger] n.syms@[i]).same_except_members(s0.syms@[i])
            &&& n.syms@[i].members@ == s0.syms@[i].members@ + (if i == aops.0 { first } else { seq![] }) + (if i
                == coll.0 {
                declared
            } else {
                seq![]
            }) + (if i == aops.0 { rest } else { seq![] })
        } by {
            assert(s1.syms@[i].same_except_members(s0.syms@[i]));
            assert(n.syms@[i].same_except_members(s2.syms@[i]));
            if i == aops.0 {
                assert(s1.syms@[i].members@ == s0.syms@[i].members@ + first);
                assert(n.syms@[i].members@ =~= s2.syms@[i].members@ + rest);
            } else {
                assert(s1.syms@[i].members@ == s0.syms@[i].members@);
                assert(n.syms@[i].members@ == s2.syms@[i].members@);
            }
            if i == coll.0 {
                assert(s2.syms@[i].members@ =~= s1.syms@[i].members@ + declared);
            } else {
                assert(s2.syms@[i].members@ =~= s1.syms@[i].members@ + seq![]);
            }
            assert(n.syms@[i].members@ =~= s0.syms@[i].members@ + (if i == aops.0 { first } else { seq![] }) + (if i
                == coll.0 {
                declared
            } else {
                seq![]
            }) + (if i == aops.0 { rest } else { seq![] }));
        }
        assert(n.syms@[list.0 as int].same_except_members(s2.syms@[list.0 as int]));
        assert(n.sym(list).parents@ == s2.sym(list).parents@);
        assert(s1.sym(list).parents@ == s0.sym(list).parents@);
        assert(s1.sym(list).tparams@ == s0.sym(list).tparams@);
        assert(list_parents_extended(s0, n, once));
    }
}

/// The class the table has at `jvm`, else the slot a new one takes.
pub open spec fn ensured_id(o: SymbolTable, jvm: Seq<char>) -> SymbolId {
    match o.spec_find_by_jvm(jvm) {
        Some(x) => x,
        None => slot(o.syms@.len() as int, 0),
    }
}

/// `n` is `o`, or, where `o` has no class at `jvm`, `o` with the new trait
/// `name` under `coll` there.
#[verifier::opaque]
pub open spec fn class_ensured(o: SymbolTable, n: SymbolTable, coll: SymbolId, name: Seq<char>, jvm: Seq<char>) -> bool {
    let id = ensured_id(o, jvm);
    match o.spec_find_by_jvm(jvm) {
        Some(_) => n == o,
        None => {
            &&& grows_under(n, o, coll)
            &&& n.syms@.len() == o.syms@.len() + 1
            &&& n.sym(coll).members@ == o.sym(coll).members@.push(id)
            &&& fresh_symbol(n.sym(id), name, SymKind::Class, Some(coll), iface_flags(), jvm)
            &&& n.sym(id).parents@ == seq![Ty::AnyRef]
        },
    }
}

/// The class at `jvm`, else a new trait `name` under `coll`.
fn ensure_trait(st: &mut SymbolTable, coll: SymbolId, name: &str, jvm: &str) -> (id: SymbolId)
    requires
        old(st).wf(),
        old(st).valid(coll),
        old(st).syms@.len() + 2 < u32::MAX,
    ensures
        final(st).wf(),
        id == ensured_id(*old(st), jvm@),
        final(st).valid(id),
        old(st).syms@.len() <= final(st).syms@.len() <= old(st).syms@.len() + 1,
        final(st).same_well_known(*old(st)),
        class_ensured(*old(st), *final(st), coll, name@, jvm@),
{
    proof {
        reveal(class_ensured);
    }
    match st.find_by_jvm(jvm) {
        Some(id) => {
            proof {
                lemma_find_valid(*st, jvm@, 0);
            }
            id
        },
        None => iface(st, coll, name, jvm),
    }
}

/// The type parameters `o` gives `c`, or the new `K` and `V` where it has
/// not exactly two.
pub open spec fn two_tparams_of(o: SymbolTable, c: SymbolId) -> (SymbolId, SymbolId) {
    let tps = o.sym(c).tparams@;
    if tps.len() == 2 {
        (tps[0], tps[1])
    } else {
        (slot(o.syms@.len() as int, 0), slot(o.syms@.len() as int, 1))
    }
}

/// `n` is `o`, or, where `c` has not exactly two type parameters, `o` with
/// the new `K` and `V` of `c` as its type parameters.
#[verifier::opaque]
pub open spec fn two_tparams_ensured(o: SymbolTable, n: SymbolTable, c: SymbolId, kname: Seq<char>, vname: Seq<char>) -> bool {
    let (k, v) = two_tparams_of(o, c);
    if o.sym(c).tparams@.len() == 2 {
        n == o
    } else {
        &&& n.syms@.len() == o.syms@.len() + 2
        &&& n.scope == o.scope
        &&& n.same_well_known(o)
        &&& forall|i: int| 0 <= i < o.syms@.len() && i != c.0 ==> (#[trigger] n.syms@[i]).same_except_members(o.syms@[i]) && n.syms@[i].members@ == o.syms@[i].members@
        &&& n.sym(c).same_but_lists(o.sym(c))
        &&& n.sym(c).parents == o.sym(c).parents
        &&& n.sym(c).tparams@ == seq![k, v]
        &&& n.sym(c).members@ == o.sym(c).members@ + seq![k, v]
        &&& is_type_param(n.sym(k), k, c, kname)
        &&& is_type_param(n.sym(v), v, c, vname)
    }
}

/// `c`'s two type parameters, declared as `K` and `V` unless it has exactly two.
fn ensure_two_tparams(st: &mut SymbolTable, c: SymbolId, kname: &str, vname: &str) -> (r: (SymbolId, SymbolId))
    requires
        old(st).wf(),
        old(st).valid(c),
        old(st).syms@.len() + 2 < u32::MAX,
    ensures
        final(st).wf(),
        r == two_tparams_of(*old(st), c),
        old(st).syms@.len() <= final(st).syms@.len() <= old(st).syms@.len() + 2,
        final(st).same_well_known(*old(st)),
        two_tparams_ensured(*old(st), *final(st), c, kname@, vname@),
{
    proof {
        reveal(two_tparams_ensured);
    }
    if st.get(c).tparams.len() == 2 {
        return (st.get(c).tparams[0], st.get(c).tparams[1]);
    }
    let ghost s0 = *st;
    let k = type_param(st, c, kname);
    let ghost s1 = *st;
    let v = type_param(st, c, vname);
    let ghost s2 = *st;
    let tv = vec![k, v];
    let ghost tg = tv;
    st.set_tparams(c, tv);
    proof {
        lemma_grows_trans(s0, s1, s2);
        assert(tg@ == seq![k, v]);
        assert(st.syms@[k.0 as int].same_except_members(s1.syms@[k.0 as int]));
        assert(st.sym(k).members@ == s1.sym(k).members@);
        assert(st.sym(c).members@ =~= s0.sym(c).members@ + seq![k, v]);
        assert forall|i: int| 0 <= i < s0.syms@.len() && i != c.0 implies (#[trigger] st.syms@[i]).same_except_members(s0.syms@[i])
            && st.syms@[i].members@ == s0.syms@[i].members@ by {
            assert(st.syms@[i] == s2.syms@[i]);
            assert(s2.syms@[i].members@ == s1.syms@[i].members@);
        }
    }
    (k, v)
}

/// `c`'s first type parameter, or the new `A` where it has none.
pub open spec fn first_tparam_of(o: SymbolTable, c: SymbolId) -> SymbolId {
    let tps = o.sym(c).tparams@;
    if tps.len() > 0 {
        tps[0]
    } else {
        slot(o.syms@.len() as int, 0)
    }
}

/// `n` is `o`, or, where `c` has no type parameter, `o` with the new `A` as
/// `c`'s only one.
#[verifier::opaque]
pub open spec fn first_tparam_ensured(o: SymbolTable, n: SymbolTable, c: SymbolId, name: Seq<char>) -> bool {
    let a = first_tparam_of(o, c);
    if o.sym(c).tparams@.len() > 0 {
        n == o
    } else {
        &&& n.syms@.len() == o.syms@.len() + 1
        &&& n.scope == o.scope
        &&& n.same_well_known(o)
        &&& forall|i: int| 0 <= i < o.syms@.len() && i != c.0 ==> (#[trigger] n.syms@[i]).same_except_members(o.syms@[i]) && n.syms@[i].members@ == o.syms@[i].members@
        &&& n.sym(c).same_but_lists(o.sym(c))
        &&& n.sym(c).parents == o.sym(c).parents
        &&& n.sym(c).tparams@ == seq![a]
        &&& n.sym(c).members@ == o.sym(c).members@.push(a)
        &&& is_type_param(n.sym(a), a, c, name)
    }
}

/// `c`'s first type parameter, declared as `name` where it has none.
fn ensure_first_tparam(st: &mut SymbolTable, c: SymbolId, name: &str) -> (a: SymbolId)
    requires
        old(st).wf(),
        old(st).valid(c),
        old(st).syms@.len() + 2 < u32::MAX,
    ensures
        final(st).wf(),
        a == first_tparam_of(*old(st), c),
        old(st).syms@.len() <= final(st).syms@.len() <= old(st).syms@.len() + 1,
        final(st).same_well_known(*old(st)),
        first_tparam_ensured(*old(st), *final(st), c, name@),
{
    proof {
        reveal(first_tparam_ensured);
    }
    if st.get(c).tparams.len() > 0 {
        return st.get(c).tparams[0];
    }
    let ghost s0 = *st;
    let a = type_param(st, c, name);
    let ghost s1 = *st;
    let tv = vec![a];
    let ghost tg = tv;
    st.set_tparams(c, tv);
    proof {
        assert(tg@ == seq![a]);
        assert forall|i: int| 0 <= i < s0.syms@.len() && i != c.0 implies (#[trigger] st.syms@[i]).same_except_members(s0.syms@[i])
            && st.syms@[i].members@ == s0.syms@[i].members@ by {
            assert(st.syms@[i] == s1.syms@[i]);
        }
    }
    a
}

/// The first member of `owner` named `name` in `o`, else the slot a new one
/// takes.
pub open spec fn absent_id(o: SymbolTable, owner: SymbolId, name: Seq<char>) -> SymbolId {
    match crate::prelude_arrayops2::first_named(o, o.sym(owner).members@, name, 0) {
        Some(e) => e,
        None => slot(o.syms@.len() as int, 0),
    }
}

/// `n` is `o` with the final method `name` of `owner`, whose type `ok`
/// accepts, as the last of `owner`'s members.
#[verifier::opaque]
pub open spec fn method_added(o: SymbolTable, n: SymbolTable, owner: SymbolId, name: Seq<char>, ok: spec_fn(Ty) -> bool) -> bool {
    let id = slot(o.syms@.len() as int, 0);
    &&& grows_under(n, o, owner)
    &&& n.syms@.len() == o.syms@.len() + 1
    &&& n.sym(owner).members@ == o.sym(owner).members@.push(id)
    &&& is_typed_member(n.sym(id), owner, name, ok)
    &&& n.sym(id).tparams@.len() == 0
    &&& n.sym(id).members@.len() == 0
}

/// `n` is `o` where `owner` has a member named `name` already, else
/// `method_added`.
#[verifier::opaque]
pub open spec fn absent_added(o: SymbolTable, n: SymbolTable, owner: SymbolId, name: Seq<char>, ok: spec_fn(Ty) -> bool) -> bool {
    match crate::prelude_arrayops2::first_named(o, o.sym(owner).members@, name, 0) {
        Some(_) => n == o,
        None => method_added(o, n, owner, name, ok),
    }
}

/// A method `name(params): ret` on `owner`; `ok` accepts its type.
fn add_method(st: &mut SymbolTable, owner: SymbolId, name: &str, params: Vec<Ty>, ret: Ty, ok: Ghost<spec_fn(Ty) -> bool>) -> (id: SymbolId)
    requires
        old(st).wf(),
        old(st).valid(owner),
        old(st).syms@.len() + 2 < u32::MAX,
        forall|t: Ty| SymbolTable::method_shape(t) == Some((crate::prelude::clauses_of(params@), ret)) ==> #[trigger] ok@(t),
    ensures
        final(st).wf(),
        id == slot(old(st).syms@.len() as int, 0),
        final(st).syms@.len() == old(st).syms@.len() + 1,
        final(st).same_well_known(*old(st)),
        method_added(*old(st), *final(st), owner, name@, ok@),
{
    proof {
        reveal(method_added);
    }
    let id = method(st, owner, name, params, ret, Intrinsic::Plain);
    proof {
        reveal_strlit("");
        assert(st.sym(id).jvm_name@ =~= ""@);
        assert(ok@(st.sym(id).ty));
    }
    id
}

/// `method`, unless `owner` already declares a member named `name`: that
/// member is the answer then.
fn method_absent(st: &mut SymbolTable, owner: SymbolId, name: &str, params: Vec<Ty>, ret: Ty, ok: Ghost<spec_fn(Ty) -> bool>) -> (id: SymbolId)
    requires
        old(st).wf(),
        old(st).valid(owner),
        old(st).syms@.len() + 2 < u32::MAX,
        forall|t: Ty| SymbolTable::method_shape(t) == Some((crate::prelude::clauses_of(params@), ret)) ==> #[trigger] ok@(t),
    ensures
        final(st).wf(),
        id == absent_id(*old(st), owner, name@),
        final(st).valid(id),
        old(st).syms@.len() <= final(st).syms@.len() <= old(st).syms@.len() + 1,
        final(st).same_well_known(*old(st)),
        absent_added(*old(st), *final(st), owner, name@, ok@),
{
    proof {
        reveal(absent_added);
        reveal(method_added);
    }
    if let Some(id) = crate::prelude_arrayops2::find_member_named(st, owner, name) {
        proof {
            lemma_first_named_valid(*st, owner, name@, 0);
        }
        return id;
    }
    add_method(st, owner, name, params, ret, ok)
}

proof fn lemma_first_named_valid(st: SymbolTable, owner: SymbolId, name: Seq<char>, j: int)
    requires
        st.wf(),
        st.valid(owner),
        0 <= j,
    ensures
        crate::prelude_arrayops2::first_named(st, st.sym(owner).members@, name, j) matches Some(e) ==> st.valid(e),
    decreases st.sym(owner).members@.len() - j,
{
    let ms = st.sym(owner).members@;
    if j < ms.len() {
        assert(st.valid(ms[j]));
        lemma_first_named_valid(st, owner, name, j + 1);
    }
}

/// `n` is `o` with `m` made `mapValues[W](f: V => W): mapview[K, W]`: its
/// type parameter `W` and parameter `f` new, its other fields kept.
#[verifier::opaque]
pub open spec fn map_values_retyped(o: SymbolTable, n: SymbolTable, m: SymbolId, mapview: SymbolId, k: SymbolId, v: SymbolId) -> bool {
    let l = o.syms@.len() as int;
    let (w, f) = (slot(l, 0), slot(l, 1));
    let (s, p) = (n.sym(m), o.sym(m));
    &&& n.syms@.len() == l + 2
    &&& n.scope == o.scope
    &&& n.same_well_known(o)
    &&& forall|i: int| 0 <= i < l && i != m.0 ==> (#[trigger] n.syms@[i]).same_except_members(o.syms@[i]) && n.syms@[i].members@ == o.syms@[i].members@
    &&& s.name == p.name && s.kind == p.kind && s.owner == p.owner && s.flags == p.flags && s.jvm_name == p.jvm_name
    &&& s.parents == p.parents && s.ctor_fields == p.ctor_fields && s.bound_hi == p.bound_hi && s.intrinsic == p.intrinsic
    &&& s.tparams@ == seq![w]
    &&& s.params@ == seq![f]
    &&& s.paramss@.len() == 1 && s.paramss@[0]@ == seq![f]
    &&& s.members@ == p.members@ + seq![w, f]
    &&& (s.ty matches Ty::Method { paramss, ret } && paramss@.len() == 1 && paramss@[0]@.len() == 1 && is_fn_type(
        paramss@[0]@[0],
        seq![Ty::TypeParam(v)],
        Ty::TypeParam(w),
    ) && is_applied(*ret, mapview, seq![Ty::TypeParam(k), Ty::TypeParam(w)]))
    &&& is_type_param(n.sym(w), w, m, "W"@)
    &&& fresh_symbol(n.sym(f), "f"@, SymKind::Term, Some(m), FLAG_PARAM, ""@)
    &&& is_fn_type(n.sym(f).ty, seq![Ty::TypeParam(v)], Ty::TypeParam(w))
}

/// Make `m` `mapValues[W](f: V => W): mapview[K, W]`.
fn retype_map_values(st: &mut SymbolTable, m: SymbolId, mapview: SymbolId, k: SymbolId, v: SymbolId)
    requires
        old(st).wf(),
        old(st).valid(m),
        old(st).syms@.len() + 3 < u32::MAX,
    ensures
        final(st).wf(),
        final(st).syms@.len() == old(st).syms@.len() + 2,
        final(st).same_well_known(*old(st)),
        map_values_retyped(*old(st), *final(st), m, mapview, k, v),
{
    proof {
        reveal(map_values_retyped);
    }
    let ghost s0 = *st;
    let w = type_param(st, m, "W");
    let ghost s1 = *st;
    let f = value_param(st, m, "f", FLAG_PARAM, fn1(Ty::TypeParam(v), Ty::TypeParam(w)));
    let ghost s2 = *st;
    let tv = vec![w];
    let ghost tg = tv;
    st.set_tparams(m, tv);
    let ghost s3 = *st;
    let pv = vec![f];
    let ghost pg = pv;
    st.set_params(m, pv);
    let ghost s4 = *st;
    let c0 = vec![f];
    let ghost c0g = c0@;
    let pss = vec![c0];
    let ghost pssg = pss;
    st.set_paramss(m, pss);
    let ghost s5 = *st;
    let ty = Ty::Method {
        paramss: vec![tys1(fn1(Ty::TypeParam(v), Ty::TypeParam(w)))],
        ret: Box::new(applied(mapview, tys2(Ty::TypeParam(k), Ty::TypeParam(w)))),
    };
    st.set_ty(m, ty);
    proof {
        lemma_grows_trans(s0, s1, s2);
        assert(tg@ == seq![w] && pg@ == seq![f] && c0g == seq![f]);
        assert(st.syms@[w.0 as int].same_except_members(s1.syms@[w.0 as int]));
        assert(st.sym(w).members@ == s1.sym(w).members@);
        assert(st.syms@[f.0 as int] == s2.syms@[f.0 as int]);
        assert(st.sym(m).members@ =~= s0.sym(m).members@ + seq![w, f]);
        assert forall|i: int| 0 <= i < s0.syms@.len() && i != m.0 implies (#[trigger] st.syms@[i]).same_except_members(s0.syms@[i])
            && st.syms@[i].members@ == s0.syms@[i].members@ by {
            assert(st.syms@[i] == s2.syms@[i]);
            assert(s2.syms@[i].members@ == s0.syms@[i].members@);
        }
    }
}

/// `t` is a function of one parameter, which `arg` accepts, to `ret`.
pub open spec fn fn_one(t: Ty, arg: spec_fn(Ty) -> bool, ret: Ty) -> bool {
    t matches Ty::Function { params, ret: r } && params@.len() == 1 && arg(params@[0]) && *r == ret
}

/// A method type of no clause whose result `ret` accepts.
pub open spec fn sig_nullary(t: Ty, ret: spec_fn(Ty) -> bool) -> bool {
    SymbolTable::method_shape(t) matches Some((cs, r)) && cs.len() == 0 && ret(r)
}

/// A method type of one clause holding one function of one parameter
/// (which `arg` accepts) to `fret`, whose result `ret` accepts.
pub open spec fn sig_fn_arg(t: Ty, arg: spec_fn(Ty) -> bool, fret: Ty, ret: spec_fn(Ty) -> bool) -> bool {
    SymbolTable::method_shape(t) matches Some((cs, r)) && cs.len() == 1 && cs[0].len() == 1 && fn_one(cs[0][0], arg, fret)
        && ret(r)
}

/// `r` is `c` applied to the pair `(K, V)`.
pub open spec fn of_pair(r: Ty, c: SymbolId, tuple2: SymbolId, k: SymbolId, v: SymbolId) -> bool {
    r matches Ty::Class { sym, args } && sym == c && args@.len() == 1 && is_applied(args@[0], tuple2, seq![Ty::TypeParam(k), Ty::TypeParam(v)])
}

/// `: r` with `r` the class `c` applied to `args`.
pub open spec fn nullary_of(c: SymbolId, args: Seq<Ty>) -> spec_fn(Ty) -> bool {
    |t: Ty| sig_nullary(t, |r: Ty| is_applied(r, c, args))
}

/// `: ret`.
pub open spec fn nullary_is(ret: Ty) -> spec_fn(Ty) -> bool {
    |t: Ty| sig_nullary(t, |r: Ty| r == ret)
}

/// `: c[(K, V)]`.
pub open spec fn nullary_pairs(c: SymbolId, tuple2: SymbolId, k: SymbolId, v: SymbolId) -> spec_fn(Ty) -> bool {
    |t: Ty| sig_nullary(t, |r: Ty| of_pair(r, c, tuple2, k, v))
}

/// `(f: x => fret): ret`.
pub open spec fn fn_arg_is(x: Ty, fret: Ty, ret: spec_fn(Ty) -> bool) -> spec_fn(Ty) -> bool {
    |t: Ty| sig_fn_arg(t, |y: Ty| y == x, fret, ret)
}

/// `(f: tuple2[K, V] => Unit): Unit`.
pub open spec fn foreach_pairs(tuple2: SymbolId, k: SymbolId, v: SymbolId) -> spec_fn(Ty) -> bool {
    |t: Ty| sig_fn_arg(t, |x: Ty| is_applied(x, tuple2, seq![Ty::TypeParam(k), Ty::TypeParam(v)]), Ty::Unit, |r: Ty| r == Ty::Unit)
}

/// The result `c[args]`.
pub open spec fn result_of(c: SymbolId, args: Seq<Ty>) -> spec_fn(Ty) -> bool {
    |r: Ty| is_applied(r, c, args)
}

/// The result `Unit`.
pub open spec fn nullary_unit() -> spec_fn(Ty) -> bool {
    |r: Ty| r == Ty::Unit
}

/// What `add_map_view` does to `o`, giving `n`, as the chain of tables `c`
/// its steps pass through.
pub open spec fn map_view_chain(o: SymbolTable, n: SymbolTable, coll: SymbolId, map_sym: SymbolId, tuple2: SymbolId, c: Seq<SymbolTable>) -> bool {
    let mapview = ensured_id(c[0], "scala/collection/MapView"@);
    let (k, v) = two_tparams_of(c[1], mapview);
    let iterable = ensured_id(c[2], "scala/collection/Iterable"@);
    let ta = Ty::TypeParam(first_tparam_of(c[3], iterable));
    let (tk, tv) = (Ty::TypeParam(k), Ty::TypeParam(v));
    let list = list_or_none(o);
    let mvm = absent_id(c[10], mapview, "mapValues"@);
    let seq_c = class_in(c[14], o.scala_pkg.unwrap(), "Seq"@, true);
    let (mk, mv) = (o.sym(map_sym).tparams@[0], o.sym(map_sym).tparams@[1]);
    &&& c.len() == 20
    &&& c[0] == o
    &&& c[19] == n
    &&& forall|i: int| 0 <= i < 20 ==> (#[trigger] c[i]).wf()
    &&& class_ensured(c[0], c[1], coll, "MapView"@, "scala/collection/MapView"@)
    &&& two_tparams_ensured(c[1], c[2], mapview, "K"@, "V"@)
    &&& class_ensured(c[2], c[3], coll, "Iterable"@, "scala/collection/Iterable"@)
    &&& first_tparam_ensured(c[3], c[4], iterable, "A"@)
    &&& absent_added(c[4], c[5], iterable, "toList"@, nullary_of(list, seq![ta]))
    &&& absent_added(c[5], c[6], iterable, "foreach"@, fn_arg_is(ta, Ty::Unit, nullary_unit()))
    &&& method_added(c[6], c[7], iterable, "size"@, nullary_is(Ty::Prim(Prim::Int)))
    &&& absent_added(c[7], c[8], mapview, "keys"@, nullary_of(iterable, seq![tk]))
    &&& absent_added(c[8], c[9], mapview, "values"@, nullary_of(iterable, seq![tv]))
    &&& absent_added(c[9], c[10], mapview, "filterKeys"@, fn_arg_is(tk, Ty::Prim(Prim::Boolean), result_of(mapview, seq![tk, tv])))
    &&& absent_added(c[10], c[11], mapview, "mapValues"@, nullary_is(Ty::Unit))
    &&& map_values_retyped(c[11], c[12], mvm, mapview, k, v)
    &&& absent_added(c[12], c[13], mapview, "toMap"@, nullary_of(map_sym, seq![tk, tv]))
    &&& absent_added(c[13], c[14], mapview, "toList"@, nullary_pairs(list, tuple2, k, v))
    &&& absent_added(c[14], c[15], mapview, "toSeq"@, nullary_pairs(seq_c, tuple2, k, v))
    &&& method_added(c[15], c[16], mapview, "size"@, nullary_is(Ty::Prim(Prim::Int)))
    &&& absent_added(c[16], c[17], mapview, "isEmpty"@, nullary_is(Ty::Prim(Prim::Boolean)))
    &&& absent_added(c[17], c[18], mapview, "foreach"@, foreach_pairs(tuple2, k, v))
    &&& method_added(c[18], c[19], map_sym, "view"@, nullary_of(mapview, seq![Ty::TypeParam(mk), Ty::TypeParam(mv)]))
}

/// `scala.collection.MapView[K, V]` (the class the table has, else a new
/// trait under `coll`) with `keys`, `values`, `filterKeys`, `mapValues`,
/// `toMap`, `toList`, `toSeq`, `size`, `isEmpty` and `foreach`, the same of
/// `Iterable` (`toList`, `foreach`, `size`), and `view` on the map class
/// `map_sym`, typed over its own type parameters. A member the class already
/// declares under a name is kept, but for `mapValues`, which is retyped.
/// The map class's type parameters are read first.
#[verifier::spinoff_prover]
#[verifier::rlimit(100)]
pub fn add_map_view(st: &mut SymbolTable, map_sym: SymbolId, tuple2: SymbolId, coll: SymbolId)
    requires
        old(st).wf(),
        old(st).valid(map_sym),
        old(st).valid(coll),
        old(st).scala_pkg is Some,
        old(st).sym(map_sym).tparams@.len() >= 2,
        old(st).syms@.len() + 40 < u32::MAX,
    ensures
        final(st).wf(),
        exists|c: Seq<SymbolTable>| #[trigger] map_view_chain(*old(st), *final(st), coll, map_sym, tuple2, c),
{
    let ghost s0 = *st;
    let map_k = st.get(map_sym).tparams[0];
    let map_v = st.get(map_sym).tparams[1];
    let list = match st.list_sym {
        Some(x) => x,
        None => SymbolId(0xffff_ffff),
    };
    let mapview = ensure_trait(st, coll, "MapView", "scala/collection/MapView");
    let ghost s1 = *st;
    let (k, v) = ensure_two_tparams(st, mapview, "K", "V");
    let ghost s2 = *st;
    let iterable = ensure_trait(st, coll, "Iterable", "scala/collection/Iterable");
    let ghost s3 = *st;
    let a = ensure_first_tparam(st, iterable, "A");
    let ghost s4 = *st;
    let ghost ta = Ty::TypeParam(a);
    let ghost (tk, tv) = (Ty::TypeParam(k), Ty::TypeParam(v));
    method_absent(
        st,
        iterable,
        "toList",
        Vec::new(),
        applied(list, tys1(Ty::TypeParam(a))),
        Ghost(nullary_of(list, seq![ta])),
    );
    let ghost s5 = *st;
    method_absent(
        st,
        iterable,
        "foreach",
        tys1(fn1(Ty::TypeParam(a), Ty::Unit)),
        Ty::Unit,
        Ghost(fn_arg_is(ta, Ty::Unit, nullary_unit())),
    );
    let ghost s6 = *st;
    add_method(st, iterable, "size", Vec::new(), Ty::Prim(Prim::Int), Ghost(nullary_is(Ty::Prim(Prim::Int))));
    let ghost s7 = *st;
    method_absent(
        st,
        mapview,
        "keys",
        Vec::new(),
        applied(iterable, tys1(Ty::TypeParam(k))),
        Ghost(nullary_of(iterable, seq![tk])),
    );
    let ghost s8 = *st;
    method_absent(
        st,
        mapview,
        "values",
        Vec::new(),
        applied(iterable, tys1(Ty::TypeParam(v))),
        Ghost(nullary_of(iterable, seq![tv])),
    );
    let ghost s9 = *st;
    method_absent(
        st,
        mapview,
        "filterKeys",
        tys1(fn1(Ty::TypeParam(k), Ty::Prim(Prim::Boolean))),
        applied(mapview, tys2(Ty::TypeParam(k), Ty::TypeParam(v))),
        Ghost(fn_arg_is(tk, Ty::Prim(Prim::Boolean), result_of(mapview, seq![tk, tv]))),
    );
    let ghost s10 = *st;
    let mvm = method_absent(st, mapview, "mapValues", Vec::new(), Ty::Unit, Ghost(nullary_is(Ty::Unit)));
    let ghost s11 = *st;
    retype_map_values(st, mvm, mapview, k, v);
    let ghost s12 = *st;
    method_absent(
        st,
        mapview,
        "toMap",
        Vec::new(),
        applied(map_sym, tys2(Ty::TypeParam(k), Ty::TypeParam(v))),
        Ghost(nullary_of(map_sym, seq![tk, tv])),
    );
    let ghost s13 = *st;
    method_absent(
        st,
        mapview,
        "toList",
        Vec::new(),
        applied(list, tys1(applied(tuple2, tys2(Ty::TypeParam(k), Ty::TypeParam(v))))),
        Ghost(nullary_pairs(list, tuple2, k, v)),
    );
    let ghost s14 = *st;
    let scala = st.scala_pkg.unwrap();
    let seq_c = lookup_class(st, scala, "Seq", true);
    method_absent(
        st,
        mapview,
        "toSeq",
        Vec::new(),
        applied(seq_c, tys1(applied(tuple2, tys2(Ty::TypeParam(k), Ty::TypeParam(v))))),
        Ghost(nullary_pairs(seq_c, tuple2, k, v)),
    );
    let ghost s15 = *st;
    add_method(st, mapview, "size", Vec::new(), Ty::Prim(Prim::Int), Ghost(nullary_is(Ty::Prim(Prim::Int))));
    let ghost s16 = *st;
    method_absent(
        st,
        mapview,
        "isEmpty",
        Vec::new(),
        Ty::Prim(Prim::Boolean),
        Ghost(nullary_is(Ty::Prim(Prim::Boolean))),
    );
    let ghost s17 = *st;
    method_absent(
        st,
        mapview,
        "foreach",
        tys1(fn1(applied(tuple2, tys2(Ty::TypeParam(k), Ty::TypeParam(v))), Ty::Unit)),
        Ty::Unit,
        Ghost(foreach_pairs(tuple2, k, v)),
    );
    let ghost s18 = *st;
    add_method(
        st,
        map_sym,
        "view",
        Vec::new(),
        applied(mapview, tys2(Ty::TypeParam(map_k), Ty::TypeParam(map_v))),
        Ghost(nullary_of(mapview, seq![Ty::TypeParam(map_k), Ty::TypeParam(map_v)])),
    );
    proof {
        let c = seq![s0, s1, s2, s3, s4, s5, s6, s7, s8, s9, s10, s11, s12, s13, s14, s15, s16, s17, s18, *st];
        assert(list == list_or_none(s0));
        assert(map_view_chain(s0, *st, coll, map_sym, tuple2, c));
    }
}

/// What `install` does to `o`, giving `n`, through the tables `c`: the
/// `Numeric` type class under `math`, the extension members of `aops`, its
/// conversions, and `MapView` with `view` on the class `Map` of `scala`.
pub open spec fn arrconv_installed(
    o: SymbolTable,
    n: SymbolTable,
    aops: SymbolId,
    tuple2: SymbolId,
    ordering: SymbolId,
    math: SymbolId,
    reflect: SymbolId,
    coll: SymbolId,
    c: Seq<SymbolTable>,
) -> bool {
    let map_sym = class_in(o, o.scala_pkg.unwrap(), "Map"@, true);
    let numeric = match o.spec_find_by_jvm("scala/math/Numeric"@) {
        Some(e) => e,
        None => slot(o.syms@.len() as int, 0),
    };
    &&& c.len() == 4
    &&& c[0].wf() && c[1].wf() && c[2].wf() && c[3].wf()
    &&& match o.spec_find_by_jvm("scala/math/Numeric"@) {
        Some(_) => c[0] == o,
        None => grows_under(c[0], o, math) && numeric_installed(o, c[0], math),
    }
    &&& simple_extensions_installed(c[0], c[1], aops, tuple2, ordering, reflect, coll)
    &&& grows_under(c[2], c[1], aops) && wrapped_conversions_installed(c[1], c[2], aops, ordering, numeric)
    &&& exists|chain: Seq<SymbolTable>| #[trigger] map_view_chain(c[2], c[3], coll, map_sym, tuple2, chain)
    &&& c[3] == n
}

/// The conversion and aggregation members of `ArrayOps` and `MapView`:
/// `aops` is `ArrayOps[A]`, `tuple2` the class `Tuple2`, `ordering` the
/// class `Ordering`, `math`, `reflect` and `coll` the packages
/// `scala.math`, `scala.reflect` and `scala.collection`; the map class is
/// the `Map` of `scala`.
#[verifier::spinoff_prover]
#[verifier::rlimit(60)]
pub fn install(st: &mut SymbolTable, aops: SymbolId, tuple2: SymbolId, ordering: SymbolId, math: SymbolId, reflect: SymbolId, coll: SymbolId)
    requires
        old(st).wf(),
        old(st).valid(aops),
        old(st).valid(math),
        old(st).valid(reflect),
        old(st).valid(coll),
        old(st).scala_pkg is Some,
        old(st).list_sym is Some,
        old(st).sym(aops).tparams@.len() > 0,
        old(st).valid(class_in(*old(st), old(st).scala_pkg.unwrap(), "Map"@, true)),
        old(st).sym(class_in(*old(st), old(st).scala_pkg.unwrap(), "Map"@, true)).tparams@.len() >= 2,
        old(st).syms@.len() + 300 < u32::MAX,
    ensures
        final(st).wf(),
        exists|c: Seq<SymbolTable>| #[trigger] arrconv_installed(*old(st), *final(st), aops, tuple2, ordering, math, reflect, coll, c),
{
    let ghost s0 = *st;
    let scala = st.scala_pkg.unwrap();
    let map_sym = lookup_class(st, scala, "Map", true);
    let numeric = add_numeric(st, math);
    let ghost s1 = *st;
    proof {
        if s0.spec_find_by_jvm("scala/math/Numeric"@) is None {
            assert(s1.syms@[map_sym.0 as int].same_except_members(s0.syms@[map_sym.0 as int]));
            assert(s1.syms@[aops.0 as int].same_except_members(s0.syms@[aops.0 as int]));
        }
    }
    add_array_ops_simple_extensions(st, aops, tuple2, ordering, reflect, coll);
    let ghost s2 = *st;
    proof {
        let list = s1.list_sym.unwrap();
        if aops != list {
            assert(s2.syms@[aops.0 as int].same_except_members(s1.syms@[aops.0 as int]));
        }
        assert(s2.syms@[aops.0 as int].tparams == s1.syms@[aops.0 as int].tparams);
        if map_sym != list {
            assert(s2.syms@[map_sym.0 as int].same_except_members(s1.syms@[map_sym.0 as int]));
        }
        assert(s2.syms@[map_sym.0 as int].tparams == s1.syms@[map_sym.0 as int].tparams);
    }
    add_array_ops_wrapped_conversions(st, aops, ordering, numeric);
    let ghost s3 = *st;
    proof {
        assert(s3.syms@[map_sym.0 as int].same_except_members(s2.syms@[map_sym.0 as int]));
    }
    add_map_view(st, map_sym, tuple2, coll);
    proof {
        let c = seq![s1, s2, s3, *st];
        assert(arrconv_installed(s0, *st, aops, tuple2, ordering, math, reflect, coll, c));
    }
}

} // verus!
