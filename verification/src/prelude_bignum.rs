//! `scala.math.BigInt` and `scala.math.BigDecimal`, each with `+`, `*` and a
//! companion with `apply(Int)` and `apply(String)`; `BigInt`'s companion also
//! has the implicit `int2bigInt`.
use vstd::prelude::*;

use crate::prelude::{class, class_ty, is_bare_class_type, method, module, module_class_of, spec_module_class_of, sym_is};
use crate::symbols::{
    lemma_grows_fresh_slot, lemma_grows_trans, FLAG_FINAL, FLAG_IMPLICIT, FLAG_MODULE, Intrinsic, Prim, SymKind, Symbol, SymbolId,
    SymbolTable, Ty,
};

verus! {

/// A method `name` of `owner`, final (or final and implicit), with no
/// intrinsic, taking one parameter that passes `param` and returning the
/// bare class type of `ret`.
pub open spec fn unary_method(s: Symbol, owner: SymbolId, name: Seq<char>, flags: u64, param: spec_fn(Ty) -> bool, ret: SymbolId) -> bool {
    &&& s.name@ == name
    &&& s.kind == SymKind::Method
    &&& s.owner == Some(owner)
    &&& s.flags == flags
    &&& s.intrinsic == Intrinsic::Plain
    &&& s.ty matches Ty::Method { paramss, ret: r } && paramss@.len() == 1 && paramss@[0]@.len() == 1 && param(
        paramss@[0]@[0],
    ) && is_bare_class_type(*r, ret)
}

/// What `add_big_int` (with `implicit_int`) or `add_big_decimal` declares,
/// from slot `l` on: the class with its `+` and `*`, the companion's class
/// and value, and the companion's `apply(Int)`, `apply(String)` and, for
/// `BigInt`, the implicit `int2bigInt(Int)`; the companion value lists the
/// same members as its class.
pub open spec fn big_number_installed(
    n: SymbolTable,
    l: int,
    math: SymbolId,
    name: Seq<char>,
    jvm: Seq<char>,
    module_jvm: Seq<char>,
    implicit_int: bool,
) -> bool {
    let cls = SymbolId(l as u32);
    let mcls = SymbolId((l + 3) as u32);
    let module = SymbolId((l + 4) as u32);
    let count = if implicit_int { 3int } else { 2int };
    &&& sym_is(n.sym(cls), name, SymKind::Class, math, FLAG_FINAL, jvm)
    &&& n.sym(cls).parents@ == seq![Ty::AnyRef]
    &&& is_bare_class_type(n.sym(cls).ty, cls)
    &&& n.sym(cls).members@ == seq![SymbolId((l + 1) as u32), SymbolId((l + 2) as u32)]
    &&& unary_method(n.sym(SymbolId((l + 1) as u32)), cls, "+"@, FLAG_FINAL, |t: Ty| is_bare_class_type(t, cls), cls)
    &&& unary_method(n.sym(SymbolId((l + 2) as u32)), cls, "*"@, FLAG_FINAL, |t: Ty| is_bare_class_type(t, cls), cls)
    &&& sym_is(n.sym(mcls), name + "$"@, SymKind::ModuleClass, math, FLAG_MODULE | FLAG_FINAL, module_jvm)
    &&& sym_is(n.sym(module), name, SymKind::Module, math, FLAG_MODULE, module_jvm)
    &&& spec_module_class_of(n, module) == Some(mcls)
    &&& n.sym(mcls).ty == Ty::ModuleRef(mcls)
    &&& unary_method(n.sym(SymbolId((l + 5) as u32)), mcls, "apply"@, FLAG_FINAL, |t: Ty| t == Ty::Prim(Prim::Int), cls)
    &&& unary_method(n.sym(SymbolId((l + 6) as u32)), mcls, "apply"@, FLAG_FINAL, |t: Ty| t == Ty::Str, cls)
    &&& implicit_int ==> unary_method(
        n.sym(SymbolId((l + 7) as u32)),
        mcls,
        "int2bigInt"@,
        FLAG_FINAL | FLAG_IMPLICIT,
        |t: Ty| t == Ty::Prim(Prim::Int),
        cls,
    )
    &&& n.sym(mcls).members@ == Seq::new(count as nat, |k: int| SymbolId((l + 5 + k) as u32))
    &&& n.sym(module).members@ == n.sym(mcls).members@
}

proof fn lemma_unary(s: Symbol, owner: SymbolId, name: Seq<char>, params: Seq<Ty>, ret: Ty, cls: SymbolId, param: spec_fn(Ty) -> bool)
    requires
        crate::prelude::is_prelude_method(s, owner, name, params, ret, Intrinsic::Plain),
        params.len() == 1,
        param(params[0]),
        is_bare_class_type(ret, cls),
    ensures
        unary_method(s, owner, name, FLAG_FINAL, param, cls),
{
    match s.ty {
        Ty::Method { paramss, ret: r } => {
            let v = paramss@.map_values(|c: Vec<Ty>| c@);
            assert(v == crate::prelude::clauses_of(params));
            assert(v.len() == 1);
            assert(paramss@[0]@ == v[0]);
        },
        _ => {},
    }
}

/// Declare the class `name` under `math`, its `+` and `*`, and its companion
/// `module_jvm` with the `apply`s (and `int2bigInt` if `implicit_int`).
fn add_big_number(st: &mut SymbolTable, math: SymbolId, name: &str, jvm: &str, module_jvm: &str, implicit_int: bool)
    requires
        old(st).wf(),
        old(st).valid(math),
        old(st).syms@.len() + 8 < u32::MAX,
    ensures
        final(st).wf(),
        final(st).grows_from(*old(st)),
        final(st).syms@.len() == old(st).syms@.len() + if implicit_int { 8int } else { 7int },
        big_number_installed(*final(st), old(st).syms@.len() as int, math, name@, jvm@, module_jvm@, implicit_int),
{
    let ghost st0 = *st;
    let ghost l = st0.syms@.len() as int;
    let cls = class(st, math, name, jvm, vec![Ty::AnyRef]);
    let ghost s1 = *st;
    let a1 = class_ty(cls);
    let r1 = class_ty(cls);
    let ghost (a1g, r1g) = (a1, r1);
    let p1 = vec![a1];
    let ghost p1g = p1@;
    let plus = method(st, cls, "+", p1, r1, Intrinsic::Plain);
    let ghost s2 = *st;
    let a2 = class_ty(cls);
    let r2 = class_ty(cls);
    let ghost (a2g, r2g) = (a2, r2);
    let p2 = vec![a2];
    let ghost p2g = p2@;
    let times = method(st, cls, "*", p2, r2, Intrinsic::Plain);
    let ghost s3 = *st;
    let big_mod = module(st, math, name, module_jvm);
    let ghost s4 = *st;
    let mcls = module_class_of(st, big_mod).unwrap();
    let r3 = class_ty(cls);
    let ghost r3g = r3;
    let p3 = vec![Ty::Prim(Prim::Int)];
    let ghost p3g = p3@;
    let apply_int = method(st, mcls, "apply", p3, r3, Intrinsic::Plain);
    let ghost s5 = *st;
    let r4 = class_ty(cls);
    let ghost r4g = r4;
    let p4 = vec![Ty::Str];
    let ghost p4g = p4@;
    let apply_str = method(st, mcls, "apply", p4, r4, Intrinsic::Plain);
    let ghost s6 = *st;
    let ghost mut s8 = s6;
    if implicit_int {
        let r5 = class_ty(cls);
        let ghost r5g = r5;
        let p5 = vec![Ty::Prim(Prim::Int)];
        let ghost p5g = p5@;
        let conv = method(st, mcls, "int2bigInt", p5, r5, Intrinsic::Plain);
        let ghost s7 = *st;
        let f = st.get(conv).flags | FLAG_IMPLICIT;
        st.set_flags(conv, f);
        proof {
            lemma_grows_fresh_slot(s6, s7, *st, conv, Symbol { flags: f, ..s7.sym(conv) });
            lemma_unary(s7.sym(conv), mcls, "int2bigInt"@, p5g, r5g, cls, |t: Ty| t == Ty::Prim(Prim::Int));
            s8 = *st;
        }
    }
    let mems = st.get(mcls).members.clone();
    st.extend_members(big_mod, &mems);
    proof {
        lemma_grows_trans(st0, s1, s2);
        lemma_grows_trans(st0, s2, s3);
        lemma_grows_trans(st0, s3, s4);
        lemma_grows_trans(st0, s4, s5);
        lemma_grows_trans(st0, s5, s6);
        lemma_grows_trans(st0, s6, s8);
        lemma_grows_trans(st0, s8, *st);
        lemma_unary(s2.sym(plus), cls, "+"@, p1g, r1g, cls, |t: Ty| is_bare_class_type(t, cls));
        lemma_unary(s3.sym(times), cls, "*"@, p2g, r2g, cls, |t: Ty| is_bare_class_type(t, cls));
        lemma_unary(s5.sym(apply_int), mcls, "apply"@, p3g, r3g, cls, |t: Ty| t == Ty::Prim(Prim::Int));
        lemma_unary(s6.sym(apply_str), mcls, "apply"@, p4g, r4g, cls, |t: Ty| t == Ty::Str);
        assert(st.syms@[cls.0 as int].same_except_members(s1.syms@[cls.0 as int]));
        assert(st.syms@[plus.0 as int].same_except_members(s2.syms@[plus.0 as int]));
        assert(st.syms@[times.0 as int].same_except_members(s3.syms@[times.0 as int]));
        assert(st.syms@[mcls.0 as int].same_except_members(s4.syms@[mcls.0 as int]));
        assert(st.syms@[big_mod.0 as int].same_except_members(s4.syms@[big_mod.0 as int]));
        assert(st.syms@[apply_int.0 as int].same_except_members(s5.syms@[apply_int.0 as int]));
        assert(st.syms@[apply_str.0 as int].same_except_members(s6.syms@[apply_str.0 as int]));
        if implicit_int {
            assert(st.syms@[(l + 7) as int].same_except_members(s8.syms@[(l + 7) as int]));
        }
        let count = if implicit_int { 3int } else { 2int };
        assert(st.sym(mcls).members@ =~= Seq::new(count as nat, |k: int| SymbolId((l + 5 + k) as u32)));
        assert(st.sym(cls).members@ =~= seq![plus, times]);
        assert(cls == SymbolId(l as u32) && plus == SymbolId((l + 1) as u32) && times == SymbolId((l + 2) as u32));
        assert(mcls == SymbolId((l + 3) as u32) && big_mod == SymbolId((l + 4) as u32));
        assert(apply_int == SymbolId((l + 5) as u32) && apply_str == SymbolId((l + 6) as u32));
        assert(sym_is(st.sym(cls), name@, SymKind::Class, math, FLAG_FINAL, jvm@));
        assert(st.sym(cls).parents@ == seq![Ty::AnyRef]);
        assert(is_bare_class_type(st.sym(cls).ty, cls));
        assert(unary_method(st.sym(plus), cls, "+"@, FLAG_FINAL, |t: Ty| is_bare_class_type(t, cls), cls));
        assert(unary_method(st.sym(times), cls, "*"@, FLAG_FINAL, |t: Ty| is_bare_class_type(t, cls), cls));
        assert(sym_is(st.sym(mcls), name@ + "$"@, SymKind::ModuleClass, math, FLAG_MODULE | FLAG_FINAL, module_jvm@));
        assert(sym_is(st.sym(big_mod), name@, SymKind::Module, math, FLAG_MODULE, module_jvm@));
        assert(spec_module_class_of(*st, big_mod) == Some(mcls));
        assert(st.sym(mcls).ty == Ty::ModuleRef(mcls));
        assert(unary_method(st.sym(apply_int), mcls, "apply"@, FLAG_FINAL, |t: Ty| t == Ty::Prim(Prim::Int), cls));
        assert(unary_method(st.sym(apply_str), mcls, "apply"@, FLAG_FINAL, |t: Ty| t == Ty::Str, cls));
        assert(st.sym(big_mod).members@ == st.sym(mcls).members@);
    }
}

/// `scala.math.BigInt` under the package `math`: `+` and `*` on `BigInt`,
/// and the companion `BigInt$` with `apply(Int)`, `apply(String)` and the
/// implicit conversion `int2bigInt(Int)`.
pub fn add_big_int(st: &mut SymbolTable, math: SymbolId)
    requires
        old(st).wf(),
        old(st).valid(math),
        old(st).syms@.len() + 8 < u32::MAX,
    ensures
        final(st).wf(),
        final(st).grows_from(*old(st)),
        final(st).syms@.len() == old(st).syms@.len() + 8,
        big_number_installed(
            *final(st),
            old(st).syms@.len() as int,
            math,
            "BigInt"@,
            "scala/math/BigInt"@,
            "scala/math/BigInt$"@,
            true,
        ),
{
    add_big_number(st, math, "BigInt", "scala/math/BigInt", "scala/math/BigInt$", true);
}

/// `scala.math.BigDecimal` under the package `math`: `+` and `*` on
/// `BigDecimal`, and the companion `BigDecimal$` with `apply(Int)` and
/// `apply(String)`.
pub fn add_big_decimal(st: &mut SymbolTable, math: SymbolId)
    requires
        old(st).wf(),
        old(st).valid(math),
        old(st).syms@.len() + 8 < u32::MAX,
    ensures
        final(st).wf(),
        final(st).grows_from(*old(st)),
        final(st).syms@.len() == old(st).syms@.len() + 7,
        big_number_installed(
            *final(st),
            old(st).syms@.len() as int,
            math,
            "BigDecimal"@,
            "scala/math/BigDecimal"@,
            "scala/math/BigDecimal$"@,
            false,
        ),
{
    add_big_number(st, math, "BigDecimal", "scala/math/BigDecimal", "scala/math/BigDecimal$", false);
}

} // verus!
