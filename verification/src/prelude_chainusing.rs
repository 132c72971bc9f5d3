//! `scala.util.chaining` (the value class `ChainingOps[A]` with `pipe` and
//! `tap`, and the implicit conversion to it) and the `resources` overloads
//! of `scala.util.Using`.
use vstd::prelude::*;
use vstd::seq_lib::lemma_flatten_concat;
use vstd::string::*;

use crate::prelude::{
    class, final_method_of, fn1, fresh_symbol, is_fn_type, is_value_param, method, module, module_class_of, slot,
    spec_module_class_of, sym_is, type_param, value_param,
};
use crate::descriptor::{field_end, find_semicolon, lemma_field_end_advances, param_spans, skip_arrays, spec_desc_arity};
use crate::text::{decimal, digit, push_decimal};
use crate::symbols::{
    lemma_grows_fresh_slot, lemma_grows_trans, Intrinsic, SymKind, Symbol, SymbolId, SymbolTable, Ty, FLAG_FINAL,
    FLAG_IMPLICIT, FLAG_MODULE, FLAG_PARAM,
};

verus! {

/// A type parameter `name` of `owner`, standing for itself.
pub open spec fn is_type_param(s: Symbol, id: SymbolId, owner: SymbolId, name: Seq<char>) -> bool {
    &&& fresh_symbol(s, name, SymKind::TypeParam, Some(owner), 0, ""@)
    &&& s.ty == Ty::TypeParam(id)
}

/// A one-clause method `name` of `ChainingOps` with the type parameter
/// `t` (named `tname`), whose parameter `f` takes the receiver's `A` to `t`,
/// returning `ret`.
pub open spec fn chaining_method(
    n: SymbolTable,
    m: SymbolId,
    ops: SymbolId,
    name: Seq<char>,
    a: SymbolId,
    t: SymbolId,
    tname: Seq<char>,
    f: SymbolId,
    ret: Ty,
) -> bool {
    let s = n.sym(m);
    &&& final_method_of(s, ops, name)
    &&& s.tparams@ == seq![t]
    &&& s.params@ == seq![f]
    &&& s.paramss@.len() == 1 && s.paramss@[0]@ == seq![f]
    &&& (s.ty matches Ty::Method { paramss, ret: r } && paramss@.len() == 1 && paramss@[0]@.len() == 1 && is_fn_type(
        paramss@[0]@[0],
        seq![Ty::TypeParam(a)],
        Ty::TypeParam(t),
    ) && *r == ret)
    &&& s.members@ == seq![t, f]
    &&& is_type_param(n.sym(t), t, m, tname)
    &&& fresh_symbol(n.sym(f), "f"@, SymKind::Term, Some(m), FLAG_PARAM, ""@)
    &&& is_fn_type(n.sym(f).ty, seq![Ty::TypeParam(a)], Ty::TypeParam(t))
}

/// What `add_chaining` declares under `util`, from slot `l` on.
pub open spec fn chaining_installed(n: SymbolTable, l: int, util: SymbolId) -> bool {
    let ops = slot(l, 0);
    let a = slot(l, 1);
    let self_f = slot(l, 2);
    let mcls = slot(l, 9);
    let module = slot(l, 10);
    let conv = slot(l, 11);
    let ca = slot(l, 12);
    &&& sym_is(n.sym(ops), "ChainingOps"@, SymKind::Class, util, FLAG_FINAL, "scala/util/ChainingOps"@)
    &&& n.sym(ops).parents@ == seq![Ty::AnyVal]
    &&& n.sym(ops).tparams@ == seq![a]
    &&& n.sym(ops).ctor_fields@ == seq![self_f]
    &&& n.sym(ops).members@ == seq![a, self_f, slot(l, 3), slot(l, 6)]
    &&& is_type_param(n.sym(a), a, ops, "A"@)
    &&& is_value_param(n.sym(self_f), ops, "self"@, FLAG_PARAM, Ty::TypeParam(a))
    &&& chaining_method(n, slot(l, 3), ops, "pipe"@, a, slot(l, 4), "B"@, slot(l, 5), Ty::TypeParam(slot(l, 4)))
    &&& chaining_method(n, slot(l, 6), ops, "tap"@, a, slot(l, 7), "U"@, slot(l, 8), Ty::TypeParam(a))
    &&& sym_is(n.sym(mcls), "chaining"@ + "$"@, SymKind::ModuleClass, util, FLAG_MODULE | FLAG_FINAL, "scala/util/package$chaining$"@)
    &&& sym_is(n.sym(module), "chaining"@, SymKind::Module, util, FLAG_MODULE, "scala/util/package$chaining$"@)
    &&& spec_module_class_of(n, module) == Some(mcls)
    &&& sym_is(n.sym(conv), "scalaUtilChainingOps"@, SymKind::Method, mcls, FLAG_FINAL | FLAG_IMPLICIT, ""@)
    &&& n.sym(conv).intrinsic == Intrinsic::Identity
    &&& n.sym(conv).tparams@ == seq![ca]
    &&& (n.sym(conv).ty matches Ty::Method { paramss, ret } && paramss@.len() == 1 && paramss@[0]@ == seq![
        Ty::TypeParam(ca),
    ] && (*ret matches Ty::Class { sym, args } && sym == ops && args@ == seq![Ty::TypeParam(ca)]))
    &&& is_type_param(n.sym(ca), ca, conv, "A"@)
    &&& n.sym(mcls).members@ == seq![conv]
    &&& n.sym(module).members@ == seq![conv]
}

/// Declare `m`, a method of `ChainingOps` just added, as
/// `m[t](f: A => t): ret` with `t` named `tname`; `ret_is_t` picks `t` or
/// `A` as the result.
fn chaining_signature(st: &mut SymbolTable, m: SymbolId, a: SymbolId, tname: &str, ret_is_t: bool) -> (r: (SymbolId, SymbolId))
    requires
        old(st).wf(),
        old(st).valid(m),
        old(st).syms@.len() + 2 < u32::MAX,
        m.0 + 1 == old(st).syms@.len(),
        old(st).sym(m).members@.len() == 0,
    ensures
        final(st).wf(),
        final(st).syms@.len() == old(st).syms@.len() + 2,
        r.0.0 == old(st).syms@.len(),
        r.1.0 == old(st).syms@.len() + 1,
        forall|base: SymbolTable| old(st).grows_from(base) && m.0 >= base.syms@.len() ==> final(st).grows_from(base),
        forall|i: int| 0 <= i < old(st).syms@.len() && i != m.0 ==> (#[trigger] final(st).syms@[i]).same_except_members(old(st).syms@[i])
            && final(st).syms@[i].members@ == old(st).syms@[i].members@,
        ({
            let s = final(st).sym(m);
            let o = old(st).sym(m);
            let t = r.0;
            let f = r.1;
            &&& s.name == o.name && s.kind == o.kind && s.owner == o.owner && s.flags == o.flags
            &&& s.jvm_name == o.jvm_name && s.intrinsic == o.intrinsic
            &&& s.tparams@ == seq![t]
            &&& s.params@ == seq![f]
            &&& s.paramss@.len() == 1 && s.paramss@[0]@ == seq![f]
            &&& (s.ty matches Ty::Method { paramss, ret } && paramss@.len() == 1 && paramss@[0]@.len() == 1 && is_fn_type(
                paramss@[0]@[0],
                seq![Ty::TypeParam(a)],
                Ty::TypeParam(t),
            ) && *ret == if ret_is_t { Ty::TypeParam(t) } else { Ty::TypeParam(a) })
            &&& s.members@ == seq![t, f]
            &&& is_type_param(final(st).sym(t), t, m, tname@)
            &&& fresh_symbol(final(st).sym(f), "f"@, SymKind::Term, Some(m), FLAG_PARAM, ""@)
            &&& is_fn_type(final(st).sym(f).ty, seq![Ty::TypeParam(a)], Ty::TypeParam(t))
        }),
{
    let ghost st0 = *st;
    let t = type_param(st, m, tname);
    let ghost s1 = *st;
    let f = value_param(st, m, "f", FLAG_PARAM, fn1(Ty::TypeParam(a), Ty::TypeParam(t)));
    let ghost s2 = *st;
    let tv = vec![t];
    let ghost tg = tv;
    st.set_tparams(m, tv);
    let ghost s3 = *st;
    let pv = vec![f];
    let ghost pg = pv;
    st.set_params(m, pv);
    let ghost s4 = *st;
    let inner = vec![f];
    let ghost ig = inner@;
    let pss = vec![inner];
    let ghost psg = pss;
    st.set_paramss(m, pss);
    let ghost s5 = *st;
    let clause = vec![fn1(Ty::TypeParam(a), Ty::TypeParam(t))];
    let ghost cg = clause@;
    let ret = if ret_is_t { Ty::TypeParam(t) } else { Ty::TypeParam(a) };
    let ty = Ty::Method { paramss: vec![clause], ret: Box::new(ret) };
    let ghost tyg = ty;
    st.set_ty(m, ty);
    proof {
        lemma_grows_trans(st0, s1, s2);
        assert(tg@ == seq![t] && pg@ == seq![f] && ig == seq![f] && psg@.len() == 1 && psg@[0]@ == ig);
        assert(cg.len() == 1 && is_fn_type(cg[0], seq![Ty::TypeParam(a)], Ty::TypeParam(t)));
        assert forall|base: SymbolTable| st0.grows_from(base) && m.0 >= base.syms@.len() implies st.grows_from(base) by {
            lemma_grows_trans(base, st0, s2);
            lemma_grows_fresh_slot(base, s2, s3, m, Symbol { tparams: tg, ..s2.sym(m) });
            lemma_grows_fresh_slot(base, s3, s4, m, Symbol { params: pg, ..s3.sym(m) });
            lemma_grows_fresh_slot(base, s4, s5, m, Symbol { paramss: psg, ..s4.sym(m) });
            lemma_grows_fresh_slot(base, s5, *st, m, Symbol { ty: tyg, ..s5.sym(m) });
        }
        assert(st.syms@[t.0 as int] == s2.syms@[t.0 as int]);
        assert(s2.syms@[t.0 as int].same_except_members(s1.syms@[t.0 as int]));
        assert(st.syms@[f.0 as int] == s2.syms@[f.0 as int]);
        assert(st.sym(m).members@ =~= seq![t, f]);
    }
    (t, f)
}

/// `scala.util.chaining` under the package `util`: the value class
/// `ChainingOps[A](self: A)` with `pipe[B](f: A => B): B` and
/// `tap[U](f: A => U): A`, and the module `chaining` with the implicit
/// `scalaUtilChainingOps[A](a: A): ChainingOps[A]`.
#[verifier::spinoff_prover]
#[verifier::rlimit(60)]
pub fn add_chaining(st: &mut SymbolTable, util: SymbolId)
    requires
        old(st).wf(),
        old(st).valid(util),
        old(st).syms@.len() + 13 < u32::MAX,
    ensures
        final(st).wf(),
        final(st).grows_from(*old(st)),
        final(st).syms@.len() == old(st).syms@.len() + 13,
        chaining_installed(*final(st), old(st).syms@.len() as int, util),
{
    let ghost st0 = *st;
    let ghost l = st0.syms@.len() as int;
    let ops = class(st, util, "ChainingOps", "scala/util/ChainingOps", vec![Ty::AnyVal]);
    let ghost s1 = *st;
    let a = type_param(st, ops, "A");
    let ghost s2 = *st;
    let av = vec![a];
    let ghost ag = av;
    st.set_tparams(ops, av);
    let ghost s3 = *st;
    proof {
        lemma_grows_trans(st0, s1, s2);
        lemma_grows_fresh_slot(st0, s2, s3, ops, Symbol { tparams: ag, ..s2.sym(ops) });
    }
    let self_f = value_param(st, ops, "self", FLAG_PARAM, Ty::TypeParam(a));
    let ghost s4 = *st;
    let fv = vec![self_f];
    let ghost fg = fv;
    st.set_ctor_fields(ops, fv);
    let ghost s5 = *st;
    proof {
        lemma_grows_trans(st0, s3, s4);
        lemma_grows_fresh_slot(st0, s4, s5, ops, Symbol { ctor_fields: fg, ..s4.sym(ops) });
    }
    let pipe = method(st, ops, "pipe", Vec::new(), Ty::Unit, Intrinsic::Plain);
    let ghost s6 = *st;
    let (b, f) = chaining_signature(st, pipe, a, "B", true);
    let ghost s7 = *st;
    let tap = method(st, ops, "tap", Vec::new(), Ty::Unit, Intrinsic::Plain);
    let ghost s8 = *st;
    let (u, g) = chaining_signature(st, tap, a, "U", false);
    let ghost s9 = *st;
    let chaining = module(st, util, "chaining", "scala/util/package$chaining$");
    let ghost s10 = *st;
    let mcls = module_class_of(st, chaining).unwrap();
    let cp = vec![Ty::Any];
    let conv = method(st, mcls, "scalaUtilChainingOps", cp, Ty::Class { sym: ops, args: Vec::new() }, Intrinsic::Identity);
    let ghost s11 = *st;
    let ca = type_param(st, conv, "A");
    let ghost s12 = *st;
    let cav = vec![ca];
    let ghost cag = cav;
    st.set_tparams(conv, cav);
    let ghost s13 = *st;
    let clause = vec![Ty::TypeParam(ca)];
    let ghost clg = clause@;
    let ret_args = vec![Ty::TypeParam(ca)];
    let ghost rag = ret_args@;
    let conv_ty = Ty::Method { paramss: vec![clause], ret: Box::new(Ty::Class { sym: ops, args: ret_args }) };
    let ghost conv_tg = conv_ty;
    st.set_ty(conv, conv_ty);
    let ghost s14 = *st;
    let fl = st.get(conv).flags | FLAG_IMPLICIT;
    st.set_flags(conv, fl);
    let ghost s15 = *st;
    proof {
        lemma_grows_trans(st0, s5, s6);
        lemma_grows_trans(st0, s7, s8);
        lemma_grows_trans(st0, s9, s10);
        lemma_grows_trans(st0, s10, s11);
        lemma_grows_trans(st0, s11, s12);
        lemma_grows_fresh_slot(st0, s12, s13, conv, Symbol { tparams: cag, ..s12.sym(conv) });
        lemma_grows_fresh_slot(st0, s13, s14, conv, Symbol { ty: conv_tg, ..s13.sym(conv) });
        lemma_grows_fresh_slot(st0, s14, s15, conv, Symbol { flags: fl, ..s14.sym(conv) });
    }
    let mems = st.get(mcls).members.clone();
    st.extend_members(chaining, &mems);
    proof {
        lemma_grows_trans(st0, s15, *st);
        reveal_strlit("");
        assert(ops == slot(l, 0) && a == slot(l, 1) && self_f == slot(l, 2) && pipe == slot(l, 3) && b == slot(l, 4));
        assert(f == slot(l, 5) && tap == slot(l, 6) && u == slot(l, 7) && g == slot(l, 8) && mcls == slot(l, 9));
        assert(chaining == slot(l, 10) && conv == slot(l, 11) && ca == slot(l, 12));
        assert(ag@ == seq![a] && fg@ == seq![self_f] && cag@ == seq![ca] && clg == seq![Ty::TypeParam(ca)]);
        assert(rag == seq![Ty::TypeParam(ca)]);
        assert(st.syms@[ops.0 as int].same_except_members(s5.syms@[ops.0 as int]));
        assert(st.syms@[a.0 as int].same_except_members(s2.syms@[a.0 as int]));
        assert(st.syms@[self_f.0 as int].same_except_members(s4.syms@[self_f.0 as int]));
        assert(st.syms@[pipe.0 as int].same_except_members(s7.syms@[pipe.0 as int]));
        assert(st.syms@[b.0 as int].same_except_members(s7.syms@[b.0 as int]));
        assert(st.syms@[f.0 as int].same_except_members(s7.syms@[f.0 as int]));
        assert(st.syms@[tap.0 as int].same_except_members(s9.syms@[tap.0 as int]));
        assert(st.syms@[u.0 as int].same_except_members(s9.syms@[u.0 as int]));
        assert(st.syms@[g.0 as int].same_except_members(s9.syms@[g.0 as int]));
        assert(st.syms@[mcls.0 as int].same_except_members(s10.syms@[mcls.0 as int]));
        assert(st.syms@[chaining.0 as int].same_except_members(s10.syms@[chaining.0 as int]));
        assert(st.syms@[conv.0 as int].same_except_members(s15.syms@[conv.0 as int]));
        assert(st.syms@[ca.0 as int].same_except_members(s12.syms@[ca.0 as int]));
        assert(st.sym(ops).members@ =~= seq![a, self_f, pipe, tap]);
        assert(st.sym(pipe).members@ == s7.sym(pipe).members@);
        assert(st.sym(tap).members@ == s9.sym(tap).members@);
        assert(st.sym(mcls).members@ =~= seq![conv]);
        assert(chaining_method(*st, pipe, ops, "pipe"@, a, b, "B"@, f, Ty::TypeParam(b)));
        assert(chaining_method(*st, tap, ops, "tap"@, a, u, "U"@, g, Ty::TypeParam(a)));
        let n = *st;
        assert(sym_is(n.sym(ops), "ChainingOps"@, SymKind::Class, util, FLAG_FINAL, "scala/util/ChainingOps"@));
        assert(n.sym(ops).parents@ == seq![Ty::AnyVal]);
        assert(n.sym(ops).tparams@ == seq![a]);
        assert(n.sym(ops).ctor_fields@ == seq![self_f]);
        assert(is_type_param(n.sym(a), a, ops, "A"@));
        assert(is_value_param(n.sym(self_f), ops, "self"@, FLAG_PARAM, Ty::TypeParam(a)));
        assert(sym_is(n.sym(mcls), "chaining"@ + "$"@, SymKind::ModuleClass, util, FLAG_MODULE | FLAG_FINAL, "scala/util/package$chaining$"@));
        assert(sym_is(n.sym(chaining), "chaining"@, SymKind::Module, util, FLAG_MODULE, "scala/util/package$chaining$"@));
        assert(spec_module_class_of(n, chaining) == Some(mcls));
        assert(s11.sym(conv).flags == FLAG_FINAL);
        assert(s12.syms@[conv.0 as int].same_except_members(s11.syms@[conv.0 as int]));
        assert(s14.sym(conv).flags == FLAG_FINAL);
        assert(n.sym(conv).flags == FLAG_FINAL | FLAG_IMPLICIT);
        assert(n.sym(conv).jvm_name@ == ""@);
        assert(n.sym(conv).name@ == "scalaUtilChainingOps"@);
        assert(sym_is(n.sym(conv), "scalaUtilChainingOps"@, SymKind::Method, mcls, FLAG_FINAL | FLAG_IMPLICIT, ""@));
        assert(n.sym(conv).intrinsic == Intrinsic::Identity);
        assert(n.sym(conv).tparams@ == seq![ca]);
        assert(is_type_param(n.sym(ca), ca, conv, "A"@));
        assert(n.sym(chaining).members@ == seq![conv]);
    }
}

/// `s` written `k` times over.
pub open spec fn repeat(s: Seq<char>, k: nat) -> Seq<char>
    decreases k,
{
    if k == 0 {
        Seq::empty()
    } else {
        repeat(s, (k - 1) as nat) + s
    }
}

/// The JVM descriptor `Using.resources` has for `n` resources: the first
/// resource as an `Object`, each later one as a `Function0`, the body as a
/// `FunctionN`, one `Releasable` per resource, and an `Object` result.
pub open spec fn using_resources_desc(n: nat) -> Seq<char> {
    "(Ljava/lang/Object;"@ + repeat("Lscala/Function0;"@, if n >= 1 { (n - 1) as nat } else { 0 }) + "Lscala/Function"@
        + decimal(n) + ";"@ + repeat("Lscala/util/Using$Releasable;"@, n) + ")Ljava/lang/Object;"@
}

/// The type of resource parameter `i`: the first by value, the others by
/// name.
pub open spec fn resource_param_ty(r: SymbolId, i: int) -> Ty {
    if i == 0 {
        Ty::TypeParam(r)
    } else {
        Ty::ByName(Box::new(Ty::TypeParam(r)))
    }
}

/// `Releasable[r]`.
pub open spec fn is_releasable_of(t: Ty, releasable: SymbolId, r: SymbolId) -> bool {
    t matches Ty::Class { sym, args } && sym == releasable && args@ == seq![Ty::TypeParam(r)]
}

/// What `add_using_resources` declares from slot `l` on: the method
/// `resources[R1, ..., Rn, A](resource1: R1, resource2: => R2, ...)(f: (R1,
/// ..., Rn) => A)(implicit evidence$1: Releasable[R1], ...): A`, its type
/// parameters and its parameters, all in fresh slots in that order.
pub open spec fn using_resources_installed(st: SymbolTable, l: int, using_cls: SymbolId, releasable: SymbolId, n: nat) -> bool {
    let m = slot(l, 0);
    let a = slot(l, n + 1int);
    let f = slot(l, 2 * n + 2int);
    let rs = Seq::new(n, |i: int| slot(l, 1 + i));
    let ps = Seq::new(n, |i: int| slot(l, n + 2 + i));
    let evs = Seq::new(n, |i: int| slot(l, 2 * n + 3 + i));
    let rts = Seq::new(n, |i: int| Ty::TypeParam(slot(l, 1 + i)));
    let s = st.sym(m);
    &&& sym_is(s, "resources"@, SymKind::Method, using_cls, FLAG_FINAL, using_resources_desc(n))
    &&& s.intrinsic == Intrinsic::Plain
    &&& s.tparams@ == rs.push(a)
    &&& s.params@ == ps + seq![f] + evs
    &&& s.paramss@.len() == 3 && s.paramss@[0]@ == ps && s.paramss@[1]@ == seq![f] && s.paramss@[2]@ == evs
    &&& (s.ty matches Ty::Method { paramss, ret } && paramss@.len() == 3 && paramss@[0]@ == Seq::new(
        n,
        |i: int| resource_param_ty(slot(l, 1 + i), i),
    ) && paramss@[1]@.len() == 1 && is_fn_type(paramss@[1]@[0], rts, Ty::TypeParam(a)) && paramss@[2]@.len() == n
        && (forall|i: int| 0 <= i < n ==> is_releasable_of(#[trigger] paramss@[2]@[i], releasable, slot(l, 1 + i)))
        && *ret == Ty::TypeParam(a))
    &&& s.members@ == Seq::new((3 * n + 2) as nat, |k: int| slot(l, 1 + k))
    &&& forall|i: int| 0 <= i < n ==> is_type_param(#[trigger] st.sym(slot(l, 1 + i)), slot(l, 1 + i), m, "R"@ + decimal((i + 1) as nat))
    &&& is_type_param(st.sym(a), a, m, "A"@)
    &&& forall|i: int| 0 <= i < n ==> is_value_param(
        #[trigger] st.sym(slot(l, n + 2 + i)),
        m,
        "resource"@ + decimal((i + 1) as nat),
        FLAG_PARAM,
        resource_param_ty(slot(l, 1 + i), i),
    )
    &&& fresh_symbol(st.sym(f), "f"@, SymKind::Term, Some(m), FLAG_PARAM, ""@)
    &&& is_fn_type(st.sym(f).ty, rts, Ty::TypeParam(a))
    &&& forall|i: int| 0 <= i < n ==> {
        let e = #[trigger] st.sym(slot(l, 2 * n + 3 + i));
        &&& fresh_symbol(e, "evidence$"@ + decimal((i + 1) as nat), SymKind::Term, Some(m), FLAG_PARAM | FLAG_IMPLICIT, ""@)
        &&& is_releasable_of(e.ty, releasable, slot(l, 1 + i))
    }
}

/// The descriptor `Using.resources` is called with for `n` resources.
fn using_resources_descriptor(n: usize) -> (d: String)
    ensures
        d@ == using_resources_desc(n as nat),
{
    let mut d = String::from_str("(Ljava/lang/Object;");
    let mut i: usize = 1;
    while i < n
        invariant
            1 <= i,
            n > 0 ==> i <= n,
            n == 0 ==> i == 1,
            d@ == "(Ljava/lang/Object;"@ + repeat("Lscala/Function0;"@, (i - 1) as nat),
        decreases n - i,
    {
        d.append("Lscala/Function0;");
        i += 1;
    }
    assert(if n >= 1 { i == n } else { i == 1 });
    assert(((i - 1) as nat) == if n >= 1 { (n - 1) as nat } else { 0nat });
    assert(d@ == "(Ljava/lang/Object;"@ + repeat("Lscala/Function0;"@, if n >= 1 { (n - 1) as nat } else { 0 }));
    d.append("Lscala/Function");
    let mut d = push_decimal(d, n);
    d.append(";");
    let ghost head = d@;
    let mut k: usize = 0;
    while k < n
        invariant
            k <= n,
            d@ == head + repeat("Lscala/util/Using$Releasable;"@, k as nat),
        decreases n - k,
    {
        d.append("Lscala/util/Using$Releasable;");
        k += 1;
    }
    d.append(")Ljava/lang/Object;");
    d
}

/// `Using.resources` for `n` resources, declared on `using_cls` (the class
/// of the module `Using`) with the evidence typed by the trait
/// `releasable`.
#[verifier::spinoff_prover]
#[verifier::rlimit(60)]
pub fn add_using_resources(st: &mut SymbolTable, using_cls: SymbolId, releasable: SymbolId, n: usize)
    requires
        old(st).wf(),
        old(st).valid(using_cls),
        old(st).syms@.len() + 3 * n + 3 < u32::MAX,
    ensures
        final(st).wf(),
        final(st).grows_from(*old(st)),
        final(st).syms@.len() == old(st).syms@.len() + 3 * n + 3,
        using_resources_installed(*final(st), old(st).syms@.len() as int, using_cls, releasable, n as nat),
        final(st).sym(using_cls).members@ == old(st).sym(using_cls).members@.push(slot(old(st).syms@.len() as int, 0)),
{
    let ghost st0 = *st;
    let ghost l = st0.syms@.len() as int;
    let m = method(st, using_cls, "resources", Vec::new(), Ty::Unit, Intrinsic::Plain);
    let ghost s1 = *st;
    // the type parameters `R1` to `Rn`
    let mut rs: Vec<SymbolId> = Vec::new();
    let mut i: usize = 0;
    while i < n
        invariant
            i <= n,
            l == st0.syms@.len(),
            l + 3 * n + 3 < u32::MAX,
            m == slot(l, 0),
            s1.syms@.len() == l + 1,
            st.wf(),
            st.grows_from(s1),
            st.syms@.len() == l + 1 + i,
            rs@ == Seq::new(i as nat, |j: int| slot(l, 1 + j)),
            forall|j: int| 0 <= j < i ==> is_type_param(#[trigger] st.sym(slot(l, 1 + j)), slot(l, 1 + j), m, "R"@ + decimal((j + 1) as nat)),
            st.sym(m).members@ == Seq::new(i as nat, |k: int| slot(l, 1 + k)),
            forall|q: int| 0 <= q < s1.syms@.len() && q != m.0 ==> (#[trigger] st.syms@[q]).members@ == s1.syms@[q].members@,
        decreases n - i,
    {
        let name = push_decimal(String::from_str("R"), i + 1);
        let ghost before = *st;
        let r = type_param(st, m, name.as_str());
        proof {
            lemma_grows_trans(s1, before, *st);
            assert forall|j: int| 0 <= j < i + 1 implies is_type_param(
                #[trigger] st.sym(slot(l, 1 + j)),
                slot(l, 1 + j),
                m,
                "R"@ + decimal((j + 1) as nat),
            ) by {
                assert(slot(l, 1 + j).0 == l + 1 + j);
                if j < i {
                    assert(is_type_param(before.sym(slot(l, 1 + j)), slot(l, 1 + j), m, "R"@ + decimal((j + 1) as nat)));
                    assert(st.syms@[l + 1 + j].same_except_members(before.syms@[l + 1 + j]));
                    assert(st.syms@[l + 1 + j].members@ == before.syms@[l + 1 + j].members@);
                    assert(is_type_param(st.sym(slot(l, 1 + j)), slot(l, 1 + j), m, "R"@ + decimal((j + 1) as nat)));
                } else {
                    assert(r == slot(l, 1 + j));
                    assert(name@ == "R"@ + decimal((j + 1) as nat));
                }
            }
            assert(st.sym(m).members@ =~= Seq::new((i + 1) as nat, |k: int| slot(l, 1 + k)));
        }
        rs.push(r);
        proof {
            assert(rs@ =~= Seq::new((i + 1) as nat, |j: int| slot(l, 1 + j)));
        }
        i += 1;
    }
    let ghost s2 = *st;
    let a = type_param(st, m, "A");
    let ghost s3 = *st;
    let mut tps = rs.clone();
    tps.push(a);
    let ghost tpg = tps;
    st.set_tparams(m, tps);
    let ghost s4 = *st;
    proof {
        lemma_grows_trans(st0, s1, s2);
        lemma_grows_trans(st0, s2, s3);
        lemma_grows_fresh_slot(st0, s3, s4, m, Symbol { tparams: tpg, ..s3.sym(m) });
        assert(s3.sym(m).members@ =~= Seq::new((n + 1) as nat, |k: int| slot(l, 1 + k)));
    }
    // the resource parameters, the first by value and the rest by name
    let mut p_ids: Vec<SymbolId> = Vec::new();
    let mut p_tys: Vec<Ty> = Vec::new();
    let mut k: usize = 0;
    while k < n
        invariant
            k <= n,
            l == st0.syms@.len(),
            l + 3 * n + 3 < u32::MAX,
            m == slot(l, 0),
            s4.syms@.len() == l + n + 2,
            rs@ == Seq::new(n as nat, |j: int| slot(l, 1 + j)),
            st.wf(),
            st.grows_from(s4),
            st.syms@.len() == l + n + 2 + k,
            p_ids@ == Seq::new(k as nat, |j: int| slot(l, n + 2 + j)),
            p_tys@ == Seq::new(k as nat, |j: int| resource_param_ty(slot(l, 1 + j), j)),
            forall|j: int| 0 <= j < k ==> is_value_param(
                #[trigger] st.sym(slot(l, n + 2 + j)),
                m,
                "resource"@ + decimal((j + 1) as nat),
                FLAG_PARAM,
                resource_param_ty(slot(l, 1 + j), j),
            ),
            st.sym(m).members@ == Seq::new((n + 1 + k) as nat, |q: int| slot(l, 1 + q)),
            forall|q: int| 0 <= q < s4.syms@.len() && q != m.0 ==> (#[trigger] st.syms@[q]).members@ == s4.syms@[q].members@,
        decreases n - k,
    {
        let r = rs[k];
        let name = push_decimal(String::from_str("resource"), k + 1);
        let ty = if k == 0 {
            Ty::TypeParam(r)
        } else {
            Ty::ByName(Box::new(Ty::TypeParam(r)))
        };
        let ty2 = if k == 0 {
            Ty::TypeParam(r)
        } else {
            Ty::ByName(Box::new(Ty::TypeParam(r)))
        };
        let ghost tyg = ty;
        assert(tyg == resource_param_ty(slot(l, 1 + k), k as int));
        let ghost before = *st;
        let p = value_param(st, m, name.as_str(), FLAG_PARAM, ty);
        proof {
            lemma_grows_trans(s4, before, *st);
            assert forall|j: int| 0 <= j < k + 1 implies is_value_param(
                #[trigger] st.sym(slot(l, n + 2 + j)),
                m,
                "resource"@ + decimal((j + 1) as nat),
                FLAG_PARAM,
                resource_param_ty(slot(l, 1 + j), j),
            ) by {
                assert(slot(l, n + 2 + j).0 == l + n + 2 + j);
                if j < k {
                    assert(is_value_param(
                        before.sym(slot(l, n + 2 + j)),
                        m,
                        "resource"@ + decimal((j + 1) as nat),
                        FLAG_PARAM,
                        resource_param_ty(slot(l, 1 + j), j),
                    ));
                    assert(st.syms@[l + n + 2 + j].same_except_members(before.syms@[l + n + 2 + j]));
                    assert(st.syms@[l + n + 2 + j].members@ == before.syms@[l + n + 2 + j].members@);
                } else {
                    assert(p == slot(l, n + 2 + j));
                    assert(name@ == "resource"@ + decimal((j + 1) as nat));
                }
            }
            assert(st.sym(m).members@ =~= Seq::new((n + 1 + k + 1) as nat, |q: int| slot(l, 1 + q)));
        }
        p_ids.push(p);
        p_tys.push(ty2);
        proof {
            assert(p_ids@ =~= Seq::new((k + 1) as nat, |j: int| slot(l, n + 2 + j)));
            assert(p_tys@ =~= Seq::new((k + 1) as nat, |j: int| resource_param_ty(slot(l, 1 + j), j)));
        }
        k += 1;
    }
    let ghost s5 = *st;
    // `f: (R1, ..., Rn) => A`, whose parameter types are written twice:
    // once for the symbol, once for the method's type
    let mut fv1: Vec<Ty> = Vec::new();
    let mut fv2: Vec<Ty> = Vec::new();
    let mut q: usize = 0;
    while q < n
        invariant
            q <= n,
            rs@ == Seq::new(n as nat, |j: int| slot(l, 1 + j)),
            fv1@ == Seq::new(q as nat, |j: int| Ty::TypeParam(slot(l, 1 + j))),
            fv2@ == fv1@,
        decreases n - q,
    {
        fv1.push(Ty::TypeParam(rs[q]));
        fv2.push(Ty::TypeParam(rs[q]));
        proof {
            assert(fv1@ =~= Seq::new((q + 1) as nat, |j: int| Ty::TypeParam(slot(l, 1 + j))));
        }
        q += 1;
    }
    let ghost fvg = fv1@;
    let f = value_param(st, m, "f", FLAG_PARAM, Ty::Function { params: fv1, ret: Box::new(Ty::TypeParam(a)) });
    let ghost s6 = *st;
    // the implicit `Releasable` evidence, one per resource
    let mut ev_ids: Vec<SymbolId> = Vec::new();
    let mut ev_tys: Vec<Ty> = Vec::new();
    let mut k: usize = 0;
    while k < n
        invariant
            k <= n,
            l == st0.syms@.len(),
            l + 3 * n + 3 < u32::MAX,
            m == slot(l, 0),
            s6.syms@.len() == l + 2 * n + 3,
            rs@ == Seq::new(n as nat, |j: int| slot(l, 1 + j)),
            st.wf(),
            st.grows_from(s6),
            st.syms@.len() == l + 2 * n + 3 + k,
            ev_ids@ == Seq::new(k as nat, |j: int| slot(l, 2 * n + 3 + j)),
            ev_tys@.len() == k,
            forall|j: int| 0 <= j < k ==> is_releasable_of(#[trigger] ev_tys@[j], releasable, slot(l, 1 + j)),
            forall|j: int| 0 <= j < k ==> {
                let e = #[trigger] st.sym(slot(l, 2 * n + 3 + j));
                &&& fresh_symbol(e, "evidence$"@ + decimal((j + 1) as nat), SymKind::Term, Some(m), FLAG_PARAM | FLAG_IMPLICIT, ""@)
                &&& is_releasable_of(e.ty, releasable, slot(l, 1 + j))
            },
            st.sym(m).members@ == Seq::new((2 * n + 2 + k) as nat, |q: int| slot(l, 1 + q)),
            forall|q: int| 0 <= q < s6.syms@.len() && q != m.0 ==> (#[trigger] st.syms@[q]).members@ == s6.syms@[q].members@,
        decreases n - k,
    {
        let r = rs[k];
        let name = push_decimal(String::from_str("evidence$"), k + 1);
        let a1 = vec![Ty::TypeParam(r)];
        let ghost a1g = a1@;
        let a2 = vec![Ty::TypeParam(r)];
        let ghost a2g = a2@;
        let ghost before = *st;
        let e = value_param(st, m, name.as_str(), FLAG_PARAM | FLAG_IMPLICIT, Ty::Class { sym: releasable, args: a1 });
        proof {
            lemma_grows_trans(s6, before, *st);
            assert(a1g == seq![Ty::TypeParam(r)] && a2g == a1g);
            assert forall|j: int| 0 <= j < k + 1 implies {
                let e = #[trigger] st.sym(slot(l, 2 * n + 3 + j));
                &&& fresh_symbol(e, "evidence$"@ + decimal((j + 1) as nat), SymKind::Term, Some(m), FLAG_PARAM | FLAG_IMPLICIT, ""@)
                &&& is_releasable_of(e.ty, releasable, slot(l, 1 + j))
            } by {
                assert(slot(l, 2 * n + 3 + j).0 == l + 2 * n + 3 + j);
                if j < k {
                    let e0 = before.sym(slot(l, 2 * n + 3 + j));
                    assert(fresh_symbol(e0, "evidence$"@ + decimal((j + 1) as nat), SymKind::Term, Some(m), FLAG_PARAM | FLAG_IMPLICIT, ""@));
                    assert(is_releasable_of(e0.ty, releasable, slot(l, 1 + j)));
                    assert(st.syms@[l + 2 * n + 3 + j].same_except_members(before.syms@[l + 2 * n + 3 + j]));
                    assert(st.syms@[l + 2 * n + 3 + j].members@ == before.syms@[l + 2 * n + 3 + j].members@);
                } else {
                    assert(e == slot(l, 2 * n + 3 + j));
                    assert(name@ == "evidence$"@ + decimal((j + 1) as nat));
                    assert(is_releasable_of(st.sym(e).ty, releasable, slot(l, 1 + j)));
                }
            }
            assert(st.sym(m).members@ =~= Seq::new((2 * n + 2 + k + 1) as nat, |q: int| slot(l, 1 + q)));
        }
        ev_ids.push(e);
        ev_tys.push(Ty::Class { sym: releasable, args: a2 });
        proof {
            assert(ev_ids@ =~= Seq::new((k + 1) as nat, |j: int| slot(l, 2 * n + 3 + j)));
        }
        k += 1;
    }
    let ghost s7 = *st;
    let ghost pidg = p_ids@;
    let ghost evg = ev_ids@;
    let ghost ptg = p_tys@;
    let ghost etg = ev_tys@;
    // the parameter list, flat and by clause
    let mut all = p_ids.clone();
    all.push(f);
    let mut j: usize = 0;
    while j < ev_ids.len()
        invariant
            j <= ev_ids@.len(),
            evg == ev_ids@,
            all@ == pidg.push(f) + evg.take(j as int),
        decreases ev_ids@.len() - j,
    {
        all.push(ev_ids[j]);
        proof {
            assert(evg.take(j + 1) =~= evg.take(j as int).push(evg[j as int]));
        }
        j += 1;
    }
    let ghost allg = all;
    st.set_params(m, all);
    let ghost s8 = *st;
    let fclause = vec![f];
    let ghost fcg = fclause@;
    let pss = vec![p_ids, fclause, ev_ids];
    let ghost pssg = pss;
    st.set_paramss(m, pss);
    let ghost s9 = *st;
    let fn_ty = Ty::Function { params: fv2, ret: Box::new(Ty::TypeParam(a)) };
    let ghost fn_tg = fn_ty;
    let body_clause = vec![fn_ty];
    let ghost bcg = body_clause@;
    let tys = vec![p_tys, body_clause, ev_tys];
    let ghost tysg = tys@;
    let mty = Ty::Method { paramss: tys, ret: Box::new(Ty::TypeParam(a)) };
    let ghost mtg = mty;
    st.set_ty(m, mty);
    let ghost s10 = *st;
    let desc = using_resources_descriptor(n);
    let ghost dg = desc;
    st.set_jvm_name(m, desc);
    proof {
        lemma_grows_trans(st0, s4, s5);
        lemma_grows_trans(st0, s5, s6);
        lemma_grows_trans(st0, s6, s7);
        lemma_grows_fresh_slot(st0, s7, s8, m, Symbol { params: allg, ..s7.sym(m) });
        lemma_grows_fresh_slot(st0, s8, s9, m, Symbol { paramss: pssg, ..s8.sym(m) });
        lemma_grows_fresh_slot(st0, s9, s10, m, Symbol { ty: mtg, ..s9.sym(m) });
        lemma_grows_fresh_slot(st0, s10, *st, m, Symbol { jvm_name: dg, ..s10.sym(m) });
        lemma_grows_trans(s4, s5, s6);
        lemma_grows_trans(s4, s6, s7);
        assert(evg.take(evg.len() as int) =~= evg);
        assert(tpg@ =~= Seq::new(n as nat, |i: int| slot(l, 1 + i)).push(a));
        assert(fcg == seq![f] && bcg == seq![fn_tg]);
        assert(is_fn_type(fn_tg, Seq::new(n as nat, |i: int| Ty::TypeParam(slot(l, 1 + i))), Ty::TypeParam(a)));
        let sm = st.sym(m);
        assert(sm.members@ =~= Seq::new((3 * n + 2) as nat, |q: int| slot(l, 1 + q)));
        assert(sm.params@ =~= pidg + seq![f] + evg);
        assert(sm.tparams@ == tpg@);
        // every slot but `m` is as the last step that wrote it left it
        assert forall|x: int| 0 < x - l < 3 * n + 3 implies #[trigger] st.syms@[x] == s7.syms@[x] by {}
        assert forall|i: int| 0 <= i < n implies is_type_param(
            #[trigger] st.sym(slot(l, 1 + i)),
            slot(l, 1 + i),
            m,
            "R"@ + decimal((i + 1) as nat),
        ) by {
            assert(slot(l, 1 + i).0 == l + 1 + i);
            assert(is_type_param(s2.sym(slot(l, 1 + i)), slot(l, 1 + i), m, "R"@ + decimal((i + 1) as nat)));
            assert(st.syms@[l + 1 + i] == s7.syms@[l + 1 + i]);
            assert(s7.syms@[l + 1 + i].same_except_members(s4.syms@[l + 1 + i]));
            assert(s4.syms@[l + 1 + i] == s3.syms@[l + 1 + i]);
            assert(s3.syms@[l + 1 + i].same_except_members(s2.syms@[l + 1 + i]));
            assert(s7.syms@[l + 1 + i].members@ == s6.syms@[l + 1 + i].members@);
            assert(s6.syms@[l + 1 + i].members@ == s5.syms@[l + 1 + i].members@);
            assert(s5.syms@[l + 1 + i].members@ == s4.syms@[l + 1 + i].members@);
            assert(s3.syms@[l + 1 + i].members@ == s2.syms@[l + 1 + i].members@);
        }
        assert(st.syms@[a.0 as int] == s7.syms@[a.0 as int]);
        assert(s7.syms@[a.0 as int].same_except_members(s4.syms@[a.0 as int]));
        assert(s4.syms@[a.0 as int] == s3.syms@[a.0 as int]);
        assert forall|i: int| 0 <= i < n implies is_value_param(
            #[trigger] st.sym(slot(l, n + 2 + i)),
            m,
            "resource"@ + decimal((i + 1) as nat),
            FLAG_PARAM,
            resource_param_ty(slot(l, 1 + i), i),
        ) by {
            assert(slot(l, n + 2 + i).0 == l + n + 2 + i);
            assert(is_value_param(
                s5.sym(slot(l, n + 2 + i)),
                m,
                "resource"@ + decimal((i + 1) as nat),
                FLAG_PARAM,
                resource_param_ty(slot(l, 1 + i), i),
            ));
            assert(st.syms@[l + n + 2 + i] == s7.syms@[l + n + 2 + i]);
            assert(s7.syms@[l + n + 2 + i].same_except_members(s5.syms@[l + n + 2 + i]));
            assert(s7.syms@[l + n + 2 + i].members@ == s6.syms@[l + n + 2 + i].members@);
            assert(s6.syms@[l + n + 2 + i].members@ == s5.syms@[l + n + 2 + i].members@);
        }
        assert(st.syms@[f.0 as int] == s7.syms@[f.0 as int]);
        assert(s7.syms@[f.0 as int].same_except_members(s6.syms@[f.0 as int]));
        assert forall|i: int| 0 <= i < n implies {
            let e = #[trigger] st.sym(slot(l, 2 * n + 3 + i));
            &&& fresh_symbol(e, "evidence$"@ + decimal((i + 1) as nat), SymKind::Term, Some(m), FLAG_PARAM | FLAG_IMPLICIT, ""@)
            &&& is_releasable_of(e.ty, releasable, slot(l, 1 + i))
        } by {
            assert(slot(l, 2 * n + 3 + i).0 == l + 2 * n + 3 + i);
            assert(st.syms@[l + 2 * n + 3 + i] == s7.syms@[l + 2 * n + 3 + i]);
            let e0 = s7.sym(slot(l, 2 * n + 3 + i));
            assert(fresh_symbol(e0, "evidence$"@ + decimal((i + 1) as nat), SymKind::Term, Some(m), FLAG_PARAM | FLAG_IMPLICIT, ""@));
            assert(is_releasable_of(e0.ty, releasable, slot(l, 1 + i)));
        }
        assert(tysg.len() == 3 && tysg[0]@ == ptg && tysg[1]@ == bcg && tysg[2]@ == etg);
        assert(ptg =~= Seq::new(n as nat, |i: int| resource_param_ty(slot(l, 1 + i), i)));
        assert(pssg@.len() == 3 && pssg@[0]@ == pidg && pssg@[1]@ == fcg && pssg@[2]@ == evg);
    }
}

/// A reference descriptor `L...;` with no `;` before its last character.
pub open spec fn simple_ref(w: Seq<char>) -> bool {
    &&& w.len() >= 2
    &&& w[0] == 'L'
    &&& w.last() == ';'
    &&& forall|k: int| 0 <= k < w.len() - 1 ==> w[k] != ';'
}

proof fn lemma_find_semi(d: Seq<char>, j: int, e: int)
    requires
        0 <= j <= e < d.len(),
        d[e] == ';',
        forall|k: int| j <= k < e ==> d[k] != ';',
    ensures
        find_semicolon(d, j) == e,
    decreases e - j,
{
    if j < e {
        lemma_find_semi(d, j + 1, e);
    }
}

/// A simple reference descriptor at `i` is one field descriptor.
proof fn lemma_field_end_ref(d: Seq<char>, i: int, w: Seq<char>)
    requires
        0 <= i,
        i + w.len() <= d.len(),
        d.subrange(i, i + w.len()) == w,
        simple_ref(w),
    ensures
        d[i] == 'L',
        field_end(d, i) == Some(i + w.len()),
{
    assert(d[i] == w[0]);
    assert(skip_arrays(d, i) == i);
    assert forall|k: int| i <= k < i + w.len() - 1 implies d[k] != ';' by {
        assert(d[k] == w[k - i]);
    }
    assert(d[i + w.len() - 1] == w[w.len() - 1]);
    lemma_find_semi(d, i, i + w.len() - 1);
}

/// A run of simple reference descriptors closed by `)` is read as one
/// parameter each.
proof fn lemma_spans_refs(d: Seq<char>, i: int, ws: Seq<Seq<char>>)
    requires
        0 <= i,
        forall|k: int| 0 <= k < ws.len() ==> simple_ref(#[trigger] ws[k]),
        i + ws.flatten().len() < d.len(),
        d.subrange(i, i + ws.flatten().len()) == ws.flatten(),
        d[i + ws.flatten().len()] == ')',
    ensures
        param_spans(d, i) matches Some(sp) && sp.len() == ws.len(),
    decreases ws.len(),
{
    if ws.len() == 0 {
        assert(d[i] == ')');
    } else {
        let w = ws[0];
        let rest = ws.drop_first();
        assert(ws.flatten() == w + rest.flatten());
        let e = i + w.len();
        assert(d.subrange(i, e) =~= w) by {
            assert forall|k: int| 0 <= k < w.len() implies d.subrange(i, e)[k] == w[k] by {
                assert(d.subrange(i, i + ws.flatten().len())[k] == ws.flatten()[k]);
            }
        }
        lemma_field_end_ref(d, i, w);
        lemma_field_end_advances(d, i);
        assert(d.subrange(e, e + rest.flatten().len()) =~= rest.flatten()) by {
            assert forall|k: int| 0 <= k < rest.flatten().len() implies d.subrange(e, e + rest.flatten().len())[k]
                == rest.flatten()[k] by {
                assert(d.subrange(i, i + ws.flatten().len())[w.len() + k] == ws.flatten()[w.len() + k]);
                assert(ws.flatten()[w.len() + k] == (w + rest.flatten())[w.len() + k]);
                assert((w + rest.flatten())[w.len() + k] == rest.flatten()[k]);
                assert(d.subrange(e, e + rest.flatten().len())[k] == d[e + k]);
                assert(d.subrange(i, i + ws.flatten().len())[w.len() + k] == d[i + w.len() + k]);
            }
        }
        assert forall|k: int| 0 <= k < rest.len() implies simple_ref(#[trigger] rest[k]) by {
            assert(rest[k] == ws[k + 1]);
        }
        lemma_spans_refs(d, e, rest);
    }
}

/// `s` written `k` times is the flattening of `k` copies of `s`.
proof fn lemma_repeat_flatten(s: Seq<char>, k: nat)
    ensures
        repeat(s, k) == Seq::new(k, |j: int| s).flatten(),
    decreases k,
{
    if k > 0 {
        lemma_repeat_flatten(s, (k - 1) as nat);
        let prev = Seq::new((k - 1) as nat, |j: int| s);
        assert(Seq::new(k, |j: int| s) =~= prev.push(s));
        prev.lemma_flatten_push(s);
    } else {
        assert(Seq::new(0, |j: int| s) =~= Seq::<Seq<char>>::empty());
    }
}

/// No decimal numeral holds a `;`.
proof fn lemma_decimal_no_semicolon(n: nat)
    ensures
        forall|k: int| 0 <= k < decimal(n).len() ==> decimal(n)[k] != ';',
    decreases n,
{
    if n >= 10 {
        lemma_decimal_no_semicolon(n / 10);
        let d = decimal(n / 10) + seq![digit((n % 10) as int)];
        assert(decimal(n) == d);
        assert forall|k: int| 0 <= k < d.len() implies d[k] != ';' by {
            if k < decimal(n / 10).len() {
                assert(d[k] == decimal(n / 10)[k]);
            }
        }
    }
}

/// The descriptor `Using.resources` is called with, for `n >= 1`
/// resources, has `2n + 1` parameters.
proof fn lemma_resources_desc_arity(n: nat)
    requires
        n >= 1,
    ensures
        spec_desc_arity(using_resources_desc(n)) == Some((2 * n + 1) as nat),
{
    reveal_strlit("(Ljava/lang/Object;");
    reveal_strlit("(");
    reveal_strlit("Ljava/lang/Object;");
    reveal_strlit("Lscala/Function0;");
    reveal_strlit("Lscala/Function");
    reveal_strlit(";");
    reveal_strlit("Lscala/util/Using$Releasable;");
    reveal_strlit(")Ljava/lang/Object;");
    let obj = "Ljava/lang/Object;"@;
    let f0 = "Lscala/Function0;"@;
    let fun = "Lscala/Function"@ + decimal(n) + ";"@;
    let rel = "Lscala/util/Using$Releasable;"@;
    let tail = ")Ljava/lang/Object;"@;
    let a = Seq::new((n - 1) as nat, |j: int| f0);
    let b = Seq::new(n, |j: int| rel);
    let ws = seq![obj] + a + seq![fun] + b;
    lemma_repeat_flatten(f0, (n - 1) as nat);
    lemma_repeat_flatten(rel, n);
    lemma_flatten_concat(seq![obj], a);
    lemma_flatten_concat(seq![obj] + a, seq![fun]);
    lemma_flatten_concat(seq![obj] + a + seq![fun], b);
    seq![obj].lemma_flatten_one_element();
    seq![fun].lemma_flatten_one_element();
    let body = obj + repeat(f0, (n - 1) as nat) + fun + repeat(rel, n);
    assert(ws.flatten() == body);
    let d = using_resources_desc(n);
    assert(d =~= seq!['('] + body + tail);
    lemma_decimal_no_semicolon(n);
    assert(simple_ref(fun)) by {
        let dn = decimal(n);
        assert forall|k: int| 0 <= k < fun.len() - 1 implies fun[k] != ';' by {
            if k >= 15 {
                assert(fun[k] == dn[k - 15]);
            }
        }
    }
    assert forall|k: int| 0 <= k < ws.len() implies simple_ref(#[trigger] ws[k]) by {
        if k == 0 {
            assert(ws[k] == obj);
        } else if k < n {
            assert(ws[k] == f0);
        } else if k == n {
            assert(ws[k] == fun);
        } else {
            assert(ws[k] == rel);
        }
    }
    assert(d.subrange(1, 1 + body.len() as int) =~= body);
    assert(d[1 + body.len() as int] == ')');
    lemma_spans_refs(d, 1, ws);
}

/// `Using.resources` as `add_using_resources` declares it for `n >= 1`
/// resources is called with a descriptor that has one parameter per value
/// parameter of the method: the `n` resources, the body and the `n`
/// evidences.
pub proof fn lemma_using_resources_desc_arity(st: SymbolTable, l: int, using_cls: SymbolId, releasable: SymbolId, n: nat)
    requires
        using_resources_installed(st, l, using_cls, releasable, n),
        n >= 1,
    ensures
        spec_desc_arity(st.sym(slot(l, 0)).jvm_name@) == Some(st.sym(slot(l, 0)).params@.len()),
        st.sym(slot(l, 0)).params@.len() == 2 * n + 1,
{
    lemma_resources_desc_arity(n);
}

} // verus!
