//! `scala.reflect.ClassTag[T]` with `runtimeClass` and `newArray`, and its
//! companion: one plain getter per primitive and top or bottom type, and
//! `apply[T](Class): ClassTag[T]`.
use vstd::prelude::*;

use crate::prelude::{
    final_method_of, fresh_symbol, iface, iface_flags, is_bare_class_type, is_prelude_method, method, method_with_tparam, module,
    module_class_of, one_more_under, spec_module_class_of, sym_is, type_param,
};
use crate::symbols::{
    lemma_grows_fresh_slot, lemma_grows_trans, Intrinsic, Prim, SymKind, Symbol, SymbolId, SymbolTable, Ty, FLAG_MODULE,
    FLAG_FINAL, FLAG_PACKAGE,
};

verus! {

/// A parameterless getter `name: ret` of `owner` that is neither final nor
/// implicit, so implicit search never picks it.
pub open spec fn is_plain_getter(s: Symbol, owner: SymbolId, name: Seq<char>, ret: Ty) -> bool {
    &&& s.name@ == name
    &&& s.kind == SymKind::Method
    &&& s.owner == Some(owner)
    &&& s.flags == 0
    &&& s.jvm_name@.len() == 0
    &&& s.intrinsic == Intrinsic::Plain
    &&& SymbolTable::method_shape(s.ty) == Some((Seq::<Seq<Ty>>::empty(), ret))
}

/// A parameterless getter `name: ty` of `owner` that is not an implicit
/// candidate.
fn plain_getter(st: &mut SymbolTable, owner: SymbolId, name: &str, ty: Ty) -> (id: SymbolId)
    requires
        old(st).wf(),
        old(st).valid(owner),
        old(st).syms@.len() + 1 < u32::MAX,
    ensures
        one_more_under(*final(st), *old(st), owner, id),
        is_plain_getter(final(st).sym(id), owner, name@, ty),
{
    let ghost st0 = *st;
    let ghost tv = ty;
    let id = st.new_symbol(name, Some(owner), SymKind::Method, 0, "");
    let ghost s1 = *st;
    let t = Ty::Method { paramss: Vec::new(), ret: Box::new(ty) };
    let ghost tg = t;
    st.set_ty(id, t);
    proof {
        lemma_grows_fresh_slot(st0, s1, *st, id, Symbol { ty: tg, ..s1.sym(id) });
        reveal_strlit("");
        match tg {
            Ty::Method { paramss, .. } => assert(paramss@.map_values(|c: Vec<Ty>| c@) =~= Seq::<Seq<Ty>>::empty()),
            _ => {},
        }
    }
    id
}

/// The companion's getters, in order: each name and the type argument of
/// the `ClassTag` it returns.
pub open spec fn tag_getter(k: int) -> (Seq<char>, Ty) {
    if k == 0 {
        ("Int"@, Ty::Prim(Prim::Int))
    } else if k == 1 {
        ("Long"@, Ty::Prim(Prim::Long))
    } else if k == 2 {
        ("Double"@, Ty::Prim(Prim::Double))
    } else if k == 3 {
        ("Float"@, Ty::Prim(Prim::Float))
    } else if k == 4 {
        ("Boolean"@, Ty::Prim(Prim::Boolean))
    } else if k == 5 {
        ("Byte"@, Ty::Prim(Prim::Byte))
    } else if k == 6 {
        ("Short"@, Ty::Prim(Prim::Short))
    } else if k == 7 {
        ("Char"@, Ty::Prim(Prim::Char))
    } else if k == 8 {
        ("Unit"@, Ty::Unit)
    } else if k == 9 {
        ("Any"@, Ty::Any)
    } else if k == 10 {
        ("AnyRef"@, Ty::AnyRef)
    } else if k == 11 {
        ("Object"@, Ty::AnyRef)
    } else if k == 12 {
        ("Nothing"@, Ty::Nothing)
    } else {
        ("Null"@, Ty::Null)
    }
}

fn tag_getter_at(k: usize) -> (r: (&'static str, Ty))
    requires
        k < 14,
    ensures
        (r.0@, r.1) == tag_getter(k as int),
{
    match k {
        0 => ("Int", Ty::Prim(Prim::Int)),
        1 => ("Long", Ty::Prim(Prim::Long)),
        2 => ("Double", Ty::Prim(Prim::Double)),
        3 => ("Float", Ty::Prim(Prim::Float)),
        4 => ("Boolean", Ty::Prim(Prim::Boolean)),
        5 => ("Byte", Ty::Prim(Prim::Byte)),
        6 => ("Short", Ty::Prim(Prim::Short)),
        7 => ("Char", Ty::Prim(Prim::Char)),
        8 => ("Unit", Ty::Unit),
        9 => ("Any", Ty::Any),
        10 => ("AnyRef", Ty::AnyRef),
        11 => ("Object", Ty::AnyRef),
        12 => ("Nothing", Ty::Nothing),
        _ => ("Null", Ty::Null),
    }
}

/// The type `ClassTag[elem]`, as a `Ty::Class` of one argument.
pub open spec fn is_tag_type(t: Ty, ct: SymbolId, elem: Ty) -> bool {
    t matches Ty::Class { sym, args } && sym == ct && args@ == seq![elem]
}

/// What `add_classtag` declares, from slot `l` on: the package `reflect`,
/// the trait `ClassTag[T]` with `runtimeClass: Class` and
/// `newArray(Int): Array[T]`, the companion's class and value, the
/// fourteen getters and `apply[T](Class): ClassTag[T]`; the companion
/// value lists the same members as its class.
pub open spec fn classtag_installed(n: SymbolTable, l: int, scala: SymbolId, jclass: SymbolId) -> bool {
    let reflect = SymbolId(l as u32);
    let ct = SymbolId((l + 1) as u32);
    let t = SymbolId((l + 2) as u32);
    let runtime_class = n.sym(SymbolId((l + 3) as u32));
    let new_array = n.sym(SymbolId((l + 4) as u32));
    let mcls = SymbolId((l + 5) as u32);
    let module = SymbolId((l + 6) as u32);
    let apply = n.sym(SymbolId((l + 21) as u32));
    let at = SymbolId((l + 22) as u32);
    &&& sym_is(n.sym(reflect), "reflect"@, SymKind::Package, scala, FLAG_PACKAGE, "scala/reflect"@)
    &&& sym_is(n.sym(ct), "ClassTag"@, SymKind::Class, reflect, iface_flags(), "scala/reflect/ClassTag"@)
    &&& n.sym(ct).tparams@ == seq![t]
    &&& fresh_symbol(n.sym(t), "T"@, SymKind::TypeParam, Some(ct), 0, ""@)
    &&& final_method_of(runtime_class, ct, "runtimeClass"@)
    &&& (runtime_class.ty matches Ty::Method { paramss, ret } && paramss@.len() == 0 && is_bare_class_type(*ret, jclass))
    &&& is_prelude_method(
        new_array,
        ct,
        "newArray"@,
        seq![Ty::Prim(Prim::Int)],
        Ty::Array(Box::new(Ty::TypeParam(t))),
        Intrinsic::Plain,
    )
    &&& sym_is(n.sym(mcls), "ClassTag"@ + "$"@, SymKind::ModuleClass, reflect, FLAG_MODULE | FLAG_FINAL, "scala/reflect/ClassTag$"@)
    &&& sym_is(n.sym(module), "ClassTag"@, SymKind::Module, reflect, FLAG_MODULE, "scala/reflect/ClassTag$"@)
    &&& spec_module_class_of(n, module) == Some(mcls)
    &&& forall|k: int| 0 <= k < 14 ==> {
        let (name, elem) = #[trigger] tag_getter(k);
        let s = n.sym(SymbolId((l + 7 + k) as u32));
        &&& s.name@ == name
        &&& s.kind == SymKind::Method
        &&& s.owner == Some(mcls)
        &&& s.flags == 0
        &&& s.jvm_name@.len() == 0
        &&& s.intrinsic == Intrinsic::Plain
        &&& (s.ty matches Ty::Method { paramss, ret } && paramss@.len() == 0 && is_tag_type(*ret, ct, elem))
    }
    &&& final_method_of(apply, mcls, "apply"@)
    &&& apply.tparams@ == seq![at]
    &&& (apply.ty matches Ty::Method { paramss, ret } && paramss@.len() == 1 && paramss@[0]@.len() == 1 && is_bare_class_type(
        paramss@[0]@[0],
        jclass,
    ) && is_tag_type(*ret, ct, Ty::TypeParam(at)))
    &&& fresh_symbol(n.sym(at), "T"@, SymKind::TypeParam, Some(SymbolId((l + 21) as u32)), 0, ""@)
    &&& n.sym(mcls).members@ == Seq::new(15, |k: int| SymbolId((l + 7 + k) as u32))
    &&& n.sym(module).members@ == n.sym(mcls).members@
}

/// `scala.reflect.ClassTag[T]` (a trait under a new `scala.reflect`
/// package) and its companion, for the class `java.lang.Class` at
/// `jclass`; the answer is `ClassTag`.
pub fn add_classtag(st: &mut SymbolTable, jclass: SymbolId) -> (ct: SymbolId)
    requires
        old(st).wf(),
        old(st).scala_pkg is Some,
        old(st).syms@.len() + 23 < u32::MAX,
    ensures
        final(st).wf(),
        final(st).grows_from(*old(st)),
        final(st).syms@.len() == old(st).syms@.len() + 23,
        ct.0 == old(st).syms@.len() + 1,
        classtag_installed(*final(st), old(st).syms@.len() as int, old(st).scala_pkg.unwrap(), jclass),
{
    let ghost st0 = *st;
    let ghost l = st0.syms@.len() as int;
    let scala = st.scala_pkg.unwrap();
    let reflect = crate::prelude::package(st, scala, "reflect", "scala/reflect");
    let ghost s1 = *st;
    let ct = iface(st, reflect, "ClassTag", "scala/reflect/ClassTag");
    let ghost s2 = *st;
    let t = type_param(st, ct, "T");
    let ghost s3 = *st;
    let tv = vec![t];
    let ghost tg = tv;
    st.set_tparams(ct, tv);
    let ghost s4 = *st;
    proof {
        lemma_grows_trans(st0, s1, s2);
        lemma_grows_trans(st0, s2, s3);
        lemma_grows_fresh_slot(st0, s3, s4, ct, Symbol { tparams: tg, ..s3.sym(ct) });
    }
    let rc_ret = Ty::Class { sym: jclass, args: Vec::new() };
    let ghost rc_g = rc_ret;
    let runtime_class = method(st, ct, "runtimeClass", Vec::new(), rc_ret, Intrinsic::Plain);
    let ghost s5 = *st;
    proof {
        match s5.sym(runtime_class).ty {
            Ty::Method { paramss, ret } => {
                assert(paramss@.map_values(|c: Vec<Ty>| c@).len() == paramss@.len());
                assert(*ret == rc_g);
            },
            _ => {},
        }
    }
    let na = vec![Ty::Prim(Prim::Int)];
    let ghost nag = na@;
    let new_array = method(st, ct, "newArray", na, Ty::Array(Box::new(Ty::TypeParam(t))), Intrinsic::Plain);
    let ghost s6 = *st;
    let ctm = module(st, reflect, "ClassTag", "scala/reflect/ClassTag$");
    let ghost s7 = *st;
    let mc = module_class_of(st, ctm).unwrap();
    let mut k: usize = 0;
    while k < 14
        invariant
            k <= 14,
            st0.wf(),
            s7.grows_from(st0),
            s7.syms@.len() == l + 7,
            st.wf(),
            st.grows_from(s7),
            st.syms@.len() == l + 7 + k,
            l + 23 < u32::MAX,
            mc == SymbolId((l + 5) as u32),
            st.valid(mc),
            ct == SymbolId((l + 1) as u32),
            s7.sym(mc).members@.len() == 0,
            st.sym(mc).members@ == Seq::new(k as nat, |j: int| SymbolId((l + 7 + j) as u32)),
            forall|i: int| 0 <= i < s7.syms@.len() && i != mc.0 ==> (#[trigger] st.syms@[i]).members@ == s7.syms@[i].members@,
            forall|j: int| 0 <= j < k ==> {
                let (name, elem) = #[trigger] tag_getter(j);
                let s = st.sym(SymbolId((l + 7 + j) as u32));
                &&& s.name@ == name
                &&& s.kind == SymKind::Method
                &&& s.owner == Some(mc)
                &&& s.flags == 0
                &&& s.jvm_name@.len() == 0
                &&& s.intrinsic == Intrinsic::Plain
                &&& (s.ty matches Ty::Method { paramss, ret } && paramss@.len() == 0 && is_tag_type(*ret, ct, elem))
            },
        decreases 14 - k,
    {
        let (name, elem) = tag_getter_at(k);
        let ghost eg = elem;
        let args = vec![elem];
        let ghost ag = args@;
        let ghost before = *st;
        let ret_t = Ty::Class { sym: ct, args };
        let ghost rtg = ret_t;
        let id = plain_getter(st, mc, name, ret_t);
        proof {
            lemma_grows_trans(s7, before, *st);
            assert(ag == seq![eg]);
            assert(id == SymbolId((l + 7 + k) as u32));
            assert(is_tag_type(rtg, ct, eg));
            match st.sym(id).ty {
                Ty::Method { paramss, ret } => {
                    assert(paramss@.map_values(|c: Vec<Ty>| c@).len() == paramss@.len());
                    assert(*ret == rtg);
                },
                _ => {},
            }
            assert forall|j: int| 0 <= j < k + 1 implies {
                let (name, elem) = #[trigger] tag_getter(j);
                let s = st.sym(SymbolId((l + 7 + j) as u32));
                &&& s.name@ == name
                &&& s.kind == SymKind::Method
                &&& s.owner == Some(mc)
                &&& s.flags == 0
                &&& s.jvm_name@.len() == 0
                &&& s.intrinsic == Intrinsic::Plain
                &&& (s.ty matches Ty::Method { paramss, ret } && paramss@.len() == 0 && is_tag_type(*ret, ct, elem))
            } by {
                if j < k {
                    let x = SymbolId((l + 7 + j) as u32);
                    assert(st.syms@[x.0 as int].same_except_members(before.syms@[x.0 as int]));
                    let _ = tag_getter(j);
                } else {
                    let _ = tag_getter(j);
                }
            }
            assert(st.sym(mc).members@ =~= Seq::new((k + 1) as nat, |j: int| SymbolId((l + 7 + j) as u32)));
        }
        k += 1;
    }
    let ghost s8 = *st;
    let cp = vec![Ty::Class { sym: jclass, args: Vec::new() }];
    let (apply, at) = method_with_tparam(
        st,
        mc,
        "apply",
        cp,
        Ty::Class { sym: ct, args: vec![Ty::Any] },
        Intrinsic::Plain,
        "T",
    );
    let ghost s9 = *st;
    let clause = vec![Ty::Class { sym: jclass, args: Vec::new() }];
    let ghost clg = clause@;
    let clauses = vec![clause];
    let ghost csg = clauses@;
    let ret_args = vec![Ty::TypeParam(at)];
    let ghost rag = ret_args@;
    let apply_ty = Ty::Method { paramss: clauses, ret: Box::new(Ty::Class { sym: ct, args: ret_args }) };
    let ghost apply_tg = apply_ty;
    st.set_ty(apply, apply_ty);
    let ghost s10 = *st;
    proof {
        lemma_grows_fresh_slot(s8, s9, s10, apply, Symbol { ty: apply_tg, ..s9.sym(apply) });
        assert(csg.len() == 1 && csg[0]@ == clg && clg.len() == 1);
        assert(is_bare_class_type(clg[0], jclass));
    }
    let mems = st.get(mc).members.clone();
    st.extend_members(ctm, &mems);
    proof {
        lemma_grows_trans(st0, s4, s5);
        lemma_grows_trans(st0, s5, s6);
        lemma_grows_trans(st0, s6, s7);
        lemma_grows_trans(st0, s7, s8);
        lemma_grows_trans(st0, s8, s10);
        lemma_grows_trans(st0, s10, *st);
        reveal_strlit("");
        assert(rag == seq![Ty::TypeParam(at)]);
        assert(nag == seq![Ty::Prim(Prim::Int)]);
        assert(reflect == SymbolId(l as u32) && ct == SymbolId((l + 1) as u32) && t == SymbolId((l + 2) as u32));
        assert(runtime_class == SymbolId((l + 3) as u32) && new_array == SymbolId((l + 4) as u32));
        assert(ctm == SymbolId((l + 6) as u32) && apply == SymbolId((l + 21) as u32) && at == SymbolId((l + 22) as u32));
        assert(st.syms@[reflect.0 as int].same_except_members(s1.syms@[reflect.0 as int]));
        assert(st.syms@[ct.0 as int].same_except_members(s4.syms@[ct.0 as int]));
        assert(s4.syms@[t.0 as int] == s3.syms@[t.0 as int]);
        assert(st.syms@[t.0 as int].same_except_members(s4.syms@[t.0 as int]));
        assert(st.syms@[runtime_class.0 as int].same_except_members(s5.syms@[runtime_class.0 as int]));
        assert(st.syms@[new_array.0 as int].same_except_members(s6.syms@[new_array.0 as int]));
        assert(st.syms@[mc.0 as int].same_except_members(s7.syms@[mc.0 as int]));
        assert(st.syms@[ctm.0 as int].same_except_members(s7.syms@[ctm.0 as int]));
        assert(st.syms@[apply.0 as int].same_except_members(s10.syms@[apply.0 as int]));
        assert(s10.syms@[at.0 as int] == s9.syms@[at.0 as int]);
        assert(st.syms@[at.0 as int].same_except_members(s10.syms@[at.0 as int]));
        assert forall|k: int| 0 <= k < 14 implies {
            let (name, elem) = #[trigger] tag_getter(k);
            let s = st.sym(SymbolId((l + 7 + k) as u32));
            &&& s.name@ == name
            &&& s.kind == SymKind::Method
            &&& s.owner == Some(mc)
            &&& s.flags == 0
            &&& s.jvm_name@.len() == 0
            &&& s.intrinsic == Intrinsic::Plain
            &&& (s.ty matches Ty::Method { paramss, ret } && paramss@.len() == 0 && is_tag_type(*ret, ct, elem))
        } by {
            let x = SymbolId((l + 7 + k) as u32);
            assert(st.syms@[x.0 as int].same_except_members(s8.syms@[x.0 as int]));
            let _ = tag_getter(k);
        }
        assert(st.sym(mc).members@ =~= Seq::new(15, |k: int| SymbolId((l + 7 + k) as u32)));
        let n = *st;
        assert(sym_is(n.sym(reflect), "reflect"@, SymKind::Package, scala, FLAG_PACKAGE, "scala/reflect"@));
        assert(sym_is(n.sym(ct), "ClassTag"@, SymKind::Class, reflect, iface_flags(), "scala/reflect/ClassTag"@));
        assert(n.sym(ct).tparams@ == seq![t]);
        assert(fresh_symbol(n.sym(t), "T"@, SymKind::TypeParam, Some(ct), 0, ""@));
        assert(final_method_of(n.sym(runtime_class), ct, "runtimeClass"@));
        assert(sym_is(n.sym(mc), "ClassTag"@ + "$"@, SymKind::ModuleClass, reflect, FLAG_MODULE | FLAG_FINAL, "scala/reflect/ClassTag$"@));
        assert(sym_is(n.sym(ctm), "ClassTag"@, SymKind::Module, reflect, FLAG_MODULE, "scala/reflect/ClassTag$"@));
        assert(spec_module_class_of(n, ctm) == Some(mc));
        assert(final_method_of(n.sym(apply), mc, "apply"@));
        assert(n.sym(apply).tparams@ == seq![at]);
        assert(fresh_symbol(n.sym(at), "T"@, SymKind::TypeParam, Some(apply), 0, ""@));
        assert(n.sym(ctm).members@ == n.sym(mc).members@);
    }
    ct
}

} // verus!
