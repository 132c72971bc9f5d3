//! `scala.collection.ArrayOps[A]`, the value class an `Array[A]` is viewed
//! as: its element-wise members, `map` and `flatMap` with their `ClassTag`
//! evidence, the folds, and the members that answer with a pair, an index
//! or an iterator.
use vstd::prelude::*;
use vstd::string::*;

use crate::prelude::{
    clauses_of, class, ctor_field, fn1, fn2, fresh_symbol, iface, iface_flags, is_fn_type, method, module, slot,
    spec_module_class_of, sym_is, type_param, value_param,
};
use crate::prelude_chainusing::is_type_param;
use crate::text::str_eq;
use crate::symbols::{
    lemma_grows_fresh_slot, lemma_grows_trans, Intrinsic, Prim, SymKind, Symbol, SymbolId, SymbolTable, Ty, FLAG_FINAL,
    FLAG_IMPLICIT, FLAG_MODULE, FLAG_PARAM,
};

verus! {

/// The parameters of an `ArrayOps` member.
#[derive(Clone, Copy, PartialEq, Eq, Structural)]
pub enum OpsParams {
    /// None at all.
    Nothing,
    /// A predicate `A => Boolean`.
    Pred,
    /// An action `A => Unit`.
    Action,
    /// A count, `Int`.
    Count,
    /// A range, `(Int, Int)`.
    Range,
    /// An element, `A`.
    Elem,
}

/// The result of an `ArrayOps` member.
#[derive(Clone, Copy, PartialEq, Eq, Structural)]
pub enum OpsResult {
    /// An element, `A`.
    Elem,
    /// Another array, `Array[A]`.
    Array,
    Unit,
    Bool,
    Int,
}

/// Member `k` of `ArrayOps`'s own table: its name, parameters and result.
pub open spec fn ops_row(k: int) -> (Seq<char>, OpsParams, OpsResult) {
    if k == 0 {
        ("head"@, OpsParams::Nothing, OpsResult::Elem)
    } else if k == 1 {
        ("tail"@, OpsParams::Nothing, OpsResult::Array)
    } else if k == 2 {
        ("foreach"@, OpsParams::Action, OpsResult::Unit)
    } else if k == 3 {
        ("filter"@, OpsParams::Pred, OpsResult::Array)
    } else if k == 4 {
        ("take"@, OpsParams::Count, OpsResult::Array)
    } else if k == 5 {
        ("drop"@, OpsParams::Count, OpsResult::Array)
    } else if k == 6 {
        ("dropWhile"@, OpsParams::Pred, OpsResult::Array)
    } else if k == 7 {
        ("exists"@, OpsParams::Pred, OpsResult::Bool)
    } else if k == 8 {
        ("count"@, OpsParams::Pred, OpsResult::Int)
    } else if k == 9 {
        ("forall"@, OpsParams::Pred, OpsResult::Bool)
    } else if k == 10 {
        ("slice"@, OpsParams::Range, OpsResult::Array)
    } else if k == 11 {
        ("last"@, OpsParams::Nothing, OpsResult::Elem)
    } else if k == 12 {
        ("init"@, OpsParams::Nothing, OpsResult::Array)
    } else if k == 13 {
        ("reverse"@, OpsParams::Nothing, OpsResult::Array)
    } else if k == 14 {
        ("size"@, OpsParams::Nothing, OpsResult::Int)
    } else if k == 15 {
        ("isEmpty"@, OpsParams::Nothing, OpsResult::Bool)
    } else {
        ("nonEmpty"@, OpsParams::Nothing, OpsResult::Bool)
    }
}

fn ops_row_at(k: usize) -> (r: (&'static str, OpsParams, OpsResult))
    requires
        k < 17,
    ensures
        (r.0@, r.1, r.2) == ops_row(k as int),
{
    match k {
        0 => ("head", OpsParams::Nothing, OpsResult::Elem),
        1 => ("tail", OpsParams::Nothing, OpsResult::Array),
        2 => ("foreach", OpsParams::Action, OpsResult::Unit),
        3 => ("filter", OpsParams::Pred, OpsResult::Array),
        4 => ("take", OpsParams::Count, OpsResult::Array),
        5 => ("drop", OpsParams::Count, OpsResult::Array),
        6 => ("dropWhile", OpsParams::Pred, OpsResult::Array),
        7 => ("exists", OpsParams::Pred, OpsResult::Bool),
        8 => ("count", OpsParams::Pred, OpsResult::Int),
        9 => ("forall", OpsParams::Pred, OpsResult::Bool),
        10 => ("slice", OpsParams::Range, OpsResult::Array),
        11 => ("last", OpsParams::Nothing, OpsResult::Elem),
        12 => ("init", OpsParams::Nothing, OpsResult::Array),
        13 => ("reverse", OpsParams::Nothing, OpsResult::Array),
        14 => ("size", OpsParams::Nothing, OpsResult::Int),
        15 => ("isEmpty", OpsParams::Nothing, OpsResult::Bool),
        _ => ("nonEmpty", OpsParams::Nothing, OpsResult::Bool),
    }
}

/// The parameter types `ps` are those of `p`, over the element type `a`.
pub open spec fn params_ok(ps: Seq<Ty>, p: OpsParams, a: SymbolId) -> bool {
    match p {
        OpsParams::Nothing => ps.len() == 0,
        OpsParams::Pred => ps.len() == 1 && is_fn_type(ps[0], seq![Ty::TypeParam(a)], Ty::Prim(Prim::Boolean)),
        OpsParams::Action => ps.len() == 1 && is_fn_type(ps[0], seq![Ty::TypeParam(a)], Ty::Unit),
        OpsParams::Count => ps == seq![Ty::Prim(Prim::Int)],
        OpsParams::Range => ps == seq![Ty::Prim(Prim::Int), Ty::Prim(Prim::Int)],
        OpsParams::Elem => ps == seq![Ty::TypeParam(a)],
    }
}

/// The result type `t` is `r`, over the element type `a`.
pub open spec fn result_ok(t: Ty, r: OpsResult, a: SymbolId) -> bool {
    match r {
        OpsResult::Elem => t == Ty::TypeParam(a),
        OpsResult::Array => t == Ty::Array(Box::new(Ty::TypeParam(a))),
        OpsResult::Unit => t == Ty::Unit,
        OpsResult::Bool => t == Ty::Prim(Prim::Boolean),
        OpsResult::Int => t == Ty::Prim(Prim::Int),
    }
}

fn params_of(p: OpsParams, a: SymbolId) -> (v: Vec<Ty>)
    ensures
        params_ok(v@, p, a),
{
    let mut v: Vec<Ty> = Vec::new();
    match p {
        OpsParams::Nothing => {},
        OpsParams::Pred => {
            v.push(fn1(Ty::TypeParam(a), Ty::Prim(Prim::Boolean)));
        },
        OpsParams::Action => {
            v.push(fn1(Ty::TypeParam(a), Ty::Unit));
        },
        OpsParams::Count => {
            v.push(Ty::Prim(Prim::Int));
            assert(v@ =~= seq![Ty::Prim(Prim::Int)]);
        },
        OpsParams::Range => {
            v.push(Ty::Prim(Prim::Int));
            v.push(Ty::Prim(Prim::Int));
            assert(v@ =~= seq![Ty::Prim(Prim::Int), Ty::Prim(Prim::Int)]);
        },
        OpsParams::Elem => {
            v.push(Ty::TypeParam(a));
            assert(v@ =~= seq![Ty::TypeParam(a)]);
        },
    }
    v
}

fn result_of(r: OpsResult, a: SymbolId) -> (t: Ty)
    ensures
        result_ok(t, r, a),
{
    match r {
        OpsResult::Elem => Ty::TypeParam(a),
        OpsResult::Array => Ty::Array(Box::new(Ty::TypeParam(a))),
        OpsResult::Unit => Ty::Unit,
        OpsResult::Bool => Ty::Prim(Prim::Boolean),
        OpsResult::Int => Ty::Prim(Prim::Int),
    }
}

/// A final member `name` of `owner` with no intrinsic and no JVM name, of
/// parameters `p` and result `r` over the element type `a`: no clause when
/// it takes nothing, else one.
pub open spec fn is_ops_member(s: Symbol, owner: SymbolId, name: Seq<char>, p: OpsParams, r: OpsResult, a: SymbolId) -> bool {
    &&& s.name@ == name
    &&& s.kind == SymKind::Method
    &&& s.owner == Some(owner)
    &&& s.flags == FLAG_FINAL
    &&& s.jvm_name@.len() == 0
    &&& s.intrinsic == Intrinsic::Plain
    &&& (s.ty matches Ty::Method { paramss, ret } && (if p == OpsParams::Nothing {
        paramss@.len() == 0
    } else {
        paramss@.len() == 1 && params_ok(paramss@[0]@, p, a)
    }) && result_ok(*ret, r, a))
}

/// What `add_array_ops` declares under `scala`, from slot `l` on: the value
/// class `ArrayOps[A](xs: Array[A])` and the seventeen members of its table,
/// in order.
pub open spec fn array_ops_installed(n: SymbolTable, l: int, scala: SymbolId) -> bool {
    let aops = slot(l, 0);
    let a = slot(l, 1);
    let xs = slot(l, 2);
    &&& sym_is(n.sym(aops), "ArrayOps"@, SymKind::Class, scala, FLAG_FINAL, "scala/collection/ArrayOps"@)
    &&& n.sym(aops).parents@ == seq![Ty::AnyVal]
    &&& n.sym(aops).tparams@ == seq![a]
    &&& n.sym(aops).ctor_fields@ == seq![xs]
    &&& n.sym(aops).members@ == Seq::new(19, |k: int| slot(l, 1 + k))
    &&& is_type_param(n.sym(a), a, aops, "A"@)
    &&& sym_is(n.sym(xs), "xs"@, SymKind::Term, aops, FLAG_PARAM, ""@)
    &&& n.sym(xs).ty == Ty::Array(Box::new(Ty::TypeParam(a)))
    &&& forall|k: int| 0 <= k < 17 ==> {
        let (name, p, r) = #[trigger] ops_row(k);
        is_ops_member(n.sym(slot(l, 3 + k)), aops, name, p, r, a)
    }
}

/// The value class `ArrayOps[A](xs: Array[A])` under `scala`, with `head`,
/// `tail`, `foreach`, `filter`, `take`, `drop`, `dropWhile`, `exists`,
/// `count`, `forall`, `slice`, `last`, `init`, `reverse`, `size`, `isEmpty`
/// and `nonEmpty`; the answer is the class.
pub fn add_array_ops(st: &mut SymbolTable) -> (aops: SymbolId)
    requires
        old(st).wf(),
        old(st).scala_pkg is Some,
        old(st).syms@.len() + 20 < u32::MAX,
    ensures
        final(st).wf(),
        final(st).grows_from(*old(st)),
        final(st).syms@.len() == old(st).syms@.len() + 20,
        aops == slot(old(st).syms@.len() as int, 0),
        array_ops_installed(*final(st), old(st).syms@.len() as int, old(st).scala_pkg.unwrap()),
{
    let ghost st0 = *st;
    let ghost l = st0.syms@.len() as int;
    let scala = st.scala_pkg.unwrap();
    let aops = class(st, scala, "ArrayOps", "scala/collection/ArrayOps", vec![Ty::AnyVal]);
    let ghost s1 = *st;
    let a = type_param(st, aops, "A");
    let ghost s2 = *st;
    let av = vec![a];
    let ghost ag = av;
    st.set_tparams(aops, av);
    let ghost s3 = *st;
    proof {
        lemma_grows_trans(st0, s1, s2);
        lemma_grows_fresh_slot(st0, s2, s3, aops, Symbol { tparams: ag, ..s2.sym(aops) });
    }
    let xs = ctor_field(st, aops, "xs", Ty::Array(Box::new(Ty::TypeParam(a))));
    let ghost s4 = *st;
    let fv = vec![xs];
    let ghost fg = fv;
    st.set_ctor_fields(aops, fv);
    let ghost s5 = *st;
    proof {
        lemma_grows_trans(st0, s3, s4);
        lemma_grows_fresh_slot(st0, s4, s5, aops, Symbol { ctor_fields: fg, ..s4.sym(aops) });
        assert(s5.sym(aops).members@ =~= Seq::new(2, |k: int| slot(l, 1 + k)));
    }
    let mut k: usize = 0;
    while k < 17
        invariant
            k <= 17,
            l == st0.syms@.len(),
            l + 20 < u32::MAX,
            aops == slot(l, 0),
            a == slot(l, 1),
            s5.syms@.len() == l + 3,
            st.wf(),
            st.grows_from(s5),
            st.syms@.len() == l + 3 + k,
            forall|j: int| 0 <= j < k ==> {
                let (name, p, r) = #[trigger] ops_row(j);
                is_ops_member(st.sym(slot(l, 3 + j)), aops, name, p, r, a)
            },
            st.sym(aops).members@ == Seq::new((2 + k) as nat, |q: int| slot(l, 1 + q)),
            forall|i: int| 0 <= i < s5.syms@.len() && i != aops.0 ==> (#[trigger] st.syms@[i]).members@ == s5.syms@[i].members@,
        decreases 17 - k,
    {
        let (name, p, r) = ops_row_at(k);
        let params = params_of(p, a);
        let ghost pg = params@;
        let ret = result_of(r, a);
        let ghost rg = ret;
        let ghost before = *st;
        let id = method(st, aops, name, params, ret, Intrinsic::Plain);
        proof {
            lemma_grows_trans(s5, before, *st);
            assert(id == slot(l, 3 + k));
            match st.sym(id).ty {
                Ty::Method { paramss, ret } => {
                    assert(paramss@.map_values(|c: Vec<Ty>| c@).len() == paramss@.len());
                    if p != OpsParams::Nothing {
                        assert(pg.len() > 0);
                        assert(paramss@.map_values(|c: Vec<Ty>| c@)[0] == paramss@[0]@);
                    } else {
                        assert(pg.len() == 0);
                    }
                },
                _ => {},
            }
            assert(is_ops_member(st.sym(id), aops, name@, p, r, a));
            assert forall|j: int| 0 <= j < k + 1 implies {
                let (name, p, r) = #[trigger] ops_row(j);
                is_ops_member(st.sym(slot(l, 3 + j)), aops, name, p, r, a)
            } by {
                if j < k {
                    let x = slot(l, 3 + j);
                    assert(st.syms@[x.0 as int].same_except_members(before.syms@[x.0 as int]));
                    let _ = ops_row(j);
                } else {
                    let _ = ops_row(j);
                }
            }
            assert(st.sym(aops).members@ =~= Seq::new((2 + k + 1) as nat, |q: int| slot(l, 1 + q)));
        }
        k += 1;
    }
    proof {
        lemma_grows_trans(st0, s5, *st);
        reveal_strlit("");
        assert(st.syms@[aops.0 as int].same_except_members(s5.syms@[aops.0 as int]));
        assert(st.syms@[a.0 as int].same_except_members(s2.syms@[a.0 as int]));
        assert(st.syms@[a.0 as int].members@ == s2.syms@[a.0 as int].members@);
        assert(st.syms@[xs.0 as int].same_except_members(s4.syms@[xs.0 as int]));
        assert(ag@ == seq![a] && fg@ == seq![xs]);
        assert(st.syms@[xs.0 as int].members@ == s4.syms@[xs.0 as int].members@);
        let n = *st;
        assert(sym_is(n.sym(aops), "ArrayOps"@, SymKind::Class, scala, FLAG_FINAL, "scala/collection/ArrayOps"@));
        assert(n.sym(aops).parents@ == seq![Ty::AnyVal]);
        assert(is_type_param(n.sym(a), a, aops, "A"@));
        assert(sym_is(n.sym(xs), "xs"@, SymKind::Term, aops, FLAG_PARAM, ""@));
        assert(n.sym(xs).ty == Ty::Array(Box::new(Ty::TypeParam(a))));
    }
    aops
}

/// The shape of an `ArrayOps` member of one type parameter `T` and two
/// parameter clauses of one parameter each, over the element type `A`.
#[derive(Clone, Copy, PartialEq, Eq, Structural)]
pub enum MemberShape {
    /// `map[T](f: A => T)(implicit evidence: tag[T]): Array[T]`.
    MapEach { tag: SymbolId },
    /// `flatMap[T](f: A => Any)(implicit evidence: tag[T]): Array[T]`.
    FlatMap { tag: SymbolId },
    /// `collect[T](pf: partial[A, T])(implicit evidence: tag[T]): Array[T]`.
    Collect { partial: SymbolId, tag: SymbolId },
    /// `apply[T](xs: T*)(implicit evidence: tag[T]): Array[T]`, where the
    /// element type plays no part.
    ArrayApply { tag: SymbolId },
    /// `sortBy[T](f: A => T)(implicit ord: ordering[T]): Array[A]`.
    SortBy { ordering: SymbolId },
    /// `minBy[T](f: A => T)(implicit ord: ordering[T]): A`.
    ByPick { ordering: SymbolId },
    /// `foldLeft[T](z: T)(op: (T, A) => T): T`.
    FoldLeft,
    /// `fold[T](z: T)(op: (T, T) => T): T`.
    Fold,
    /// `foldRight[T](z: T)(op: (A, T) => T): T`.
    FoldRight,
}

/// The type of the first clause's parameter.
pub open spec fn shape_param0(shape: MemberShape, a: SymbolId, t: SymbolId) -> spec_fn(Ty) -> bool {
    |ty: Ty|
        match shape {
            MemberShape::MapEach { .. } => is_fn_type(ty, seq![Ty::TypeParam(a)], Ty::TypeParam(t)),
            MemberShape::FlatMap { .. } => is_fn_type(ty, seq![Ty::TypeParam(a)], Ty::Any),
            MemberShape::Collect { partial, .. } => is_applied(ty, partial, seq![Ty::TypeParam(a), Ty::TypeParam(t)]),
            MemberShape::ArrayApply { .. } => ty == Ty::Repeated(Box::new(Ty::TypeParam(t))),
            MemberShape::SortBy { .. } => is_fn_type(ty, seq![Ty::TypeParam(a)], Ty::TypeParam(t)),
            MemberShape::ByPick { .. } => is_fn_type(ty, seq![Ty::TypeParam(a)], Ty::TypeParam(t)),
            _ => ty == Ty::TypeParam(t),
        }
}

/// The type of the second clause's parameter.
pub open spec fn shape_param1(shape: MemberShape, a: SymbolId, t: SymbolId) -> spec_fn(Ty) -> bool {
    |ty: Ty|
        match shape {
            MemberShape::MapEach { tag } => is_class_of(ty, tag, t),
            MemberShape::FlatMap { tag } => is_class_of(ty, tag, t),
            MemberShape::Collect { tag, .. } => is_class_of(ty, tag, t),
            MemberShape::ArrayApply { tag } => is_class_of(ty, tag, t),
            MemberShape::SortBy { ordering } => is_class_of(ty, ordering, t),
            MemberShape::ByPick { ordering } => is_class_of(ty, ordering, t),
            MemberShape::FoldLeft => is_fn_type(ty, seq![Ty::TypeParam(t), Ty::TypeParam(a)], Ty::TypeParam(t)),
            MemberShape::Fold => is_fn_type(ty, seq![Ty::TypeParam(t), Ty::TypeParam(t)], Ty::TypeParam(t)),
            MemberShape::FoldRight => is_fn_type(ty, seq![Ty::TypeParam(a), Ty::TypeParam(t)], Ty::TypeParam(t)),
        }
}

/// The result type.
pub open spec fn shape_result(shape: MemberShape, a: SymbolId, t: SymbolId) -> spec_fn(Ty) -> bool {
    |ty: Ty|
        match shape {
            MemberShape::MapEach { .. } => ty == Ty::Array(Box::new(Ty::TypeParam(t))),
            MemberShape::FlatMap { .. } => ty == Ty::Array(Box::new(Ty::TypeParam(t))),
            MemberShape::Collect { .. } => ty == Ty::Array(Box::new(Ty::TypeParam(t))),
            MemberShape::ArrayApply { .. } => ty == Ty::Array(Box::new(Ty::TypeParam(t))),
            MemberShape::SortBy { .. } => ty == Ty::Array(Box::new(Ty::TypeParam(a))),
            MemberShape::ByPick { .. } => ty == Ty::TypeParam(a),
            _ => ty == Ty::TypeParam(t),
        }
}

/// `ty` is class `c` applied to the type parameter `t` alone.
pub open spec fn is_class_of(ty: Ty, c: SymbolId, t: SymbolId) -> bool {
    ty matches Ty::Class { sym, args } && sym == c && args@ == seq![Ty::TypeParam(t)]
}

fn shape_param0_ty(shape: MemberShape, a: SymbolId, t: SymbolId) -> (ty: Ty)
    ensures
        (shape_param0(shape, a, t))(ty),
{
    match shape {
        MemberShape::MapEach { .. } => fn1(Ty::TypeParam(a), Ty::TypeParam(t)),
        MemberShape::FlatMap { .. } => fn1(Ty::TypeParam(a), Ty::Any),
        MemberShape::Collect { partial, .. } => applied(partial, tys2(Ty::TypeParam(a), Ty::TypeParam(t))),
        MemberShape::ArrayApply { .. } => Ty::Repeated(Box::new(Ty::TypeParam(t))),
        MemberShape::SortBy { .. } | MemberShape::ByPick { .. } => fn1(Ty::TypeParam(a), Ty::TypeParam(t)),
        _ => Ty::TypeParam(t),
    }
}

fn shape_param1_ty(shape: MemberShape, a: SymbolId, t: SymbolId) -> (ty: Ty)
    ensures
        (shape_param1(shape, a, t))(ty),
{
    match shape {
        MemberShape::MapEach { tag }
        | MemberShape::FlatMap { tag }
        | MemberShape::Collect { tag, .. }
        | MemberShape::ArrayApply { tag }
        | MemberShape::SortBy { ordering: tag }
        | MemberShape::ByPick { ordering: tag } => {
            let mut args: Vec<Ty> = Vec::new();
            args.push(Ty::TypeParam(t));
            assert(args@ =~= seq![Ty::TypeParam(t)]);
            Ty::Class { sym: tag, args }
        },
        MemberShape::FoldLeft => fn2(Ty::TypeParam(t), Ty::TypeParam(a), Ty::TypeParam(t)),
        MemberShape::Fold => fn2(Ty::TypeParam(t), Ty::TypeParam(t), Ty::TypeParam(t)),
        MemberShape::FoldRight => fn2(Ty::TypeParam(a), Ty::TypeParam(t), Ty::TypeParam(t)),
    }
}

fn shape_result_ty(shape: MemberShape, a: SymbolId, t: SymbolId) -> (ty: Ty)
    ensures
        (shape_result(shape, a, t))(ty),
{
    match shape {
        MemberShape::MapEach { .. } => Ty::Array(Box::new(Ty::TypeParam(t))),
        MemberShape::FlatMap { .. } => Ty::Array(Box::new(Ty::TypeParam(t))),
        MemberShape::Collect { .. } => Ty::Array(Box::new(Ty::TypeParam(t))),
        MemberShape::ArrayApply { .. } => Ty::Array(Box::new(Ty::TypeParam(t))),
        MemberShape::SortBy { .. } => Ty::Array(Box::new(Ty::TypeParam(a))),
        MemberShape::ByPick { .. } => Ty::TypeParam(a),
        _ => Ty::TypeParam(t),
    }
}

/// A member of `ArrayOps` with one type parameter `t` (named `tname`) and
/// two parameters `p0` and `p1`, each in a clause of its own, typed by
/// `ok0` and `ok1`, with result `ret`; its members are `t`, `p0` and `p1`.
pub open spec fn two_clause_member(
    n: SymbolTable,
    m: SymbolId,
    owner: SymbolId,
    name: Seq<char>,
    t: SymbolId,
    tname: Seq<char>,
    p0: SymbolId,
    name0: Seq<char>,
    flags0: u64,
    ok0: spec_fn(Ty) -> bool,
    p1: SymbolId,
    name1: Seq<char>,
    flags1: u64,
    ok1: spec_fn(Ty) -> bool,
    ret: spec_fn(Ty) -> bool,
) -> bool {
    let s = n.sym(m);
    &&& s.name@ == name
    &&& s.kind == SymKind::Method
    &&& s.owner == Some(owner)
    &&& s.flags == FLAG_FINAL
    &&& s.jvm_name@.len() == 0
    &&& s.intrinsic == Intrinsic::Plain
    &&& s.tparams@ == seq![t]
    &&& s.params@ == seq![p0, p1]
    &&& s.paramss@.len() == 2 && s.paramss@[0]@ == seq![p0] && s.paramss@[1]@ == seq![p1]
    &&& s.members@ == seq![t, p0, p1]
    &&& (s.ty matches Ty::Method { paramss, ret: r } && paramss@.len() == 2 && paramss@[0]@.len() == 1 && paramss@[1]@.len()
        == 1 && ok0(paramss@[0]@[0]) && ok1(paramss@[1]@[0]) && ret(*r))
    &&& is_type_param(n.sym(t), t, m, tname)
    &&& fresh_symbol(n.sym(p0), name0, SymKind::Term, Some(m), flags0, ""@) && ok0(n.sym(p0).ty)
    &&& fresh_symbol(n.sym(p1), name1, SymKind::Term, Some(m), flags1, ""@) && ok1(n.sym(p1).ty)
}

/// The four symbols from slot `l` on are the method `name` of `owner` of
/// this shape over the element type `a`: the method, its type parameter
/// `tname`, and its parameters `name0` and `name1`.
pub open spec fn shaped_member(
    n: SymbolTable,
    l: int,
    owner: SymbolId,
    name: Seq<char>,
    tname: Seq<char>,
    name0: Seq<char>,
    flags0: u64,
    name1: Seq<char>,
    flags1: u64,
    shape: MemberShape,
    a: SymbolId,
) -> bool {
    let t = slot(l, 1);
    two_clause_member(
        n,
        slot(l, 0),
        owner,
        name,
        t,
        tname,
        slot(l, 2),
        name0,
        flags0,
        shape_param0(shape, a, t),
        slot(l, 3),
        name1,
        flags1,
        shape_param1(shape, a, t),
        shape_result(shape, a, t),
    )
}

/// `shaped_member` depends only on the four slots it names.
pub(crate) proof fn lemma_shaped_kept(
    n: SymbolTable,
    m: SymbolTable,
    l: int,
    owner: SymbolId,
    name: Seq<char>,
    tname: Seq<char>,
    name0: Seq<char>,
    flags0: u64,
    name1: Seq<char>,
    flags1: u64,
    shape: MemberShape,
    a: SymbolId,
)
    requires
        shaped_member(n, l, owner, name, tname, name0, flags0, name1, flags1, shape, a),
        forall|k: int| 0 <= k < 4 ==> kept(m, n, #[trigger] slot(l, k)),
    ensures
        shaped_member(m, l, owner, name, tname, name0, flags0, name1, flags1, shape, a),
{
    assert(kept(m, n, slot(l, 0)) && kept(m, n, slot(l, 1)) && kept(m, n, slot(l, 2)) && kept(m, n, slot(l, 3)));
}

/// Symbol `id` reads the same in `m` as in `n`.
pub open spec fn kept(m: SymbolTable, n: SymbolTable, id: SymbolId) -> bool {
    m.sym(id).same_except_members(n.sym(id)) && m.sym(id).members@ == n.sym(id).members@
}

/// Declare on `owner` the method `name[tname](name0: ..)(name1: ..): ..`
/// of this shape over the element type `a`.
pub(crate) fn two_clause_method(
    st: &mut SymbolTable,
    owner: SymbolId,
    name: &str,
    tname: &str,
    name0: &str,
    flags0: u64,
    name1: &str,
    flags1: u64,
    shape: MemberShape,
    a: SymbolId,
) -> (r: SymbolId)
    requires
        old(st).wf(),
        old(st).valid(owner),
        old(st).syms@.len() + 4 < u32::MAX,
    ensures
        final(st).wf(),
        final(st).grows_from(*old(st)),
        final(st).syms@.len() == old(st).syms@.len() + 4,
        r == slot(old(st).syms@.len() as int, 0),
        final(st).sym(owner).members@ == old(st).sym(owner).members@.push(r),
        forall|i: int| 0 <= i < old(st).syms@.len() && i != owner.0 ==> (#[trigger] final(st).syms@[i]).members@ == old(st).syms@[i].members@,
        shaped_member(*final(st), old(st).syms@.len() as int, owner, name@, tname@, name0@, flags0, name1@, flags1, shape, a),
{
    let ghost st0 = *st;
    let ghost l = st0.syms@.len() as int;
    let m = method(st, owner, name, Vec::new(), Ty::Unit, Intrinsic::Plain);
    let ghost s1 = *st;
    let t = type_param(st, m, tname);
    let ghost s2 = *st;
    let p0 = value_param(st, m, name0, flags0, shape_param0_ty(shape, a, t));
    let ghost s3 = *st;
    let p1 = value_param(st, m, name1, flags1, shape_param1_ty(shape, a, t));
    let ghost s4 = *st;
    let tv = vec![t];
    let ghost tg = tv;
    st.set_tparams(m, tv);
    let ghost s5 = *st;
    let pv = vec![p0, p1];
    let ghost pg = pv;
    st.set_params(m, pv);
    let ghost s6 = *st;
    let c0 = vec![p0];
    let ghost c0g = c0@;
    let c1 = vec![p1];
    let ghost c1g = c1@;
    let pss = vec![c0, c1];
    let ghost pssg = pss;
    st.set_paramss(m, pss);
    let ghost s7 = *st;
    let tc0 = vec![shape_param0_ty(shape, a, t)];
    let ghost tc0g = tc0@;
    let tc1 = vec![shape_param1_ty(shape, a, t)];
    let ghost tc1g = tc1@;
    let ty = Ty::Method { paramss: vec![tc0, tc1], ret: Box::new(shape_result_ty(shape, a, t)) };
    let ghost tyg = ty;
    st.set_ty(m, ty);
    proof {
        lemma_grows_trans(st0, s1, s2);
        lemma_grows_trans(st0, s2, s3);
        lemma_grows_trans(st0, s3, s4);
        lemma_grows_fresh_slot(st0, s4, s5, m, Symbol { tparams: tg, ..s4.sym(m) });
        lemma_grows_fresh_slot(st0, s5, s6, m, Symbol { params: pg, ..s5.sym(m) });
        lemma_grows_fresh_slot(st0, s6, s7, m, Symbol { paramss: pssg, ..s6.sym(m) });
        lemma_grows_fresh_slot(st0, s7, *st, m, Symbol { ty: tyg, ..s7.sym(m) });
        reveal_strlit("");
        assert(tg@ == seq![t] && pg@ == seq![p0, p1] && c0g == seq![p0] && c1g == seq![p1]);
        assert(tc0g.len() == 1 && tc1g.len() == 1);
        assert(st.syms@[t.0 as int].same_except_members(s2.syms@[t.0 as int]));
        assert(st.syms@[t.0 as int].members@ == s2.syms@[t.0 as int].members@);
        assert(st.syms@[p0.0 as int].same_except_members(s3.syms@[p0.0 as int]));
        assert(st.syms@[p0.0 as int].members@ == s3.syms@[p0.0 as int].members@);
        assert(st.syms@[p1.0 as int].same_except_members(s4.syms@[p1.0 as int]));
        assert(st.sym(m).members@ =~= seq![t, p0, p1]);
        assert(s2.syms@[m.0 as int].same_except_members(s1.syms@[m.0 as int]));
        assert(s4.syms@[m.0 as int].same_except_members(s2.syms@[m.0 as int]));
    }
    m
}

/// `ArrayOps.map[B](f: A => B)(implicit evidence$1: ClassTag[B]): Array[B]`,
/// with `ct` the class `ClassTag`.
pub fn add_array_ops_map(st: &mut SymbolTable, aops: SymbolId, ct: SymbolId)
    requires
        old(st).wf(),
        old(st).valid(aops),
        old(st).sym(aops).tparams@.len() > 0,
        old(st).syms@.len() + 4 < u32::MAX,
    ensures
        final(st).wf(),
        final(st).grows_from(*old(st)),
        final(st).syms@.len() == old(st).syms@.len() + 4,
        final(st).sym(aops).members@ == old(st).sym(aops).members@.push(slot(old(st).syms@.len() as int, 0)),
        shaped_member(
            *final(st),
            old(st).syms@.len() as int,
            aops,
            "map"@,
            "B"@,
            "f"@,
            FLAG_PARAM,
            "evidence$1"@,
            FLAG_PARAM | FLAG_IMPLICIT,
            MemberShape::MapEach { tag: ct },
            old(st).sym(aops).tparams@[0],
        ),
{
    let a = st.get(aops).tparams[0];
    two_clause_method(st, aops, "map", "B", "f", FLAG_PARAM, "evidence$1", FLAG_PARAM | FLAG_IMPLICIT, MemberShape::MapEach { tag: ct }, a);
}

/// `ArrayOps.flatMap[B](f: A => Any)(implicit evidence$1: ClassTag[B]):
/// Array[B]`, with `ct` the class `ClassTag`.
pub fn add_array_ops_flat_map(st: &mut SymbolTable, aops: SymbolId, ct: SymbolId)
    requires
        old(st).wf(),
        old(st).valid(aops),
        old(st).sym(aops).tparams@.len() > 0,
        old(st).syms@.len() + 4 < u32::MAX,
    ensures
        final(st).wf(),
        final(st).grows_from(*old(st)),
        final(st).syms@.len() == old(st).syms@.len() + 4,
        final(st).sym(aops).members@ == old(st).sym(aops).members@.push(slot(old(st).syms@.len() as int, 0)),
        shaped_member(
            *final(st),
            old(st).syms@.len() as int,
            aops,
            "flatMap"@,
            "B"@,
            "f"@,
            FLAG_PARAM,
            "evidence$1"@,
            FLAG_PARAM | FLAG_IMPLICIT,
            MemberShape::FlatMap { tag: ct },
            old(st).sym(aops).tparams@[0],
        ),
{
    let a = st.get(aops).tparams[0];
    two_clause_method(st, aops, "flatMap", "B", "f", FLAG_PARAM, "evidence$1", FLAG_PARAM | FLAG_IMPLICIT, MemberShape::FlatMap { tag: ct }, a);
}

/// `ArrayOps.foldLeft[B](z: B)(op: (B, A) => B): B`,
/// `fold[A1](z: A1)(op: (A1, A1) => A1): A1` and
/// `foldRight[B](z: B)(op: (A, B) => B): B`, in this order.
pub fn add_array_ops_folds(st: &mut SymbolTable, aops: SymbolId)
    requires
        old(st).wf(),
        old(st).valid(aops),
        old(st).sym(aops).tparams@.len() > 0,
        old(st).syms@.len() + 12 < u32::MAX,
    ensures
        final(st).wf(),
        final(st).grows_from(*old(st)),
        final(st).syms@.len() == old(st).syms@.len() + 12,
        ({
            let l = old(st).syms@.len() as int;
            let a = old(st).sym(aops).tparams@[0];
            &&& final(st).sym(aops).members@ == old(st).sym(aops).members@ + seq![slot(l, 0), slot(l, 4), slot(l, 8)]
            &&& shaped_member(*final(st), l, aops, "foldLeft"@, "B"@, "z"@, FLAG_PARAM, "op"@, FLAG_PARAM, MemberShape::FoldLeft, a)
            &&& shaped_member(*final(st), l + 4, aops, "fold"@, "A1"@, "z"@, FLAG_PARAM, "op"@, FLAG_PARAM, MemberShape::Fold, a)
            &&& shaped_member(*final(st), l + 8, aops, "foldRight"@, "B"@, "z"@, FLAG_PARAM, "op"@, FLAG_PARAM, MemberShape::FoldRight, a)
        }),
{
    let ghost st0 = *st;
    let a = st.get(aops).tparams[0];
    let m0 = two_clause_method(st, aops, "foldLeft", "B", "z", FLAG_PARAM, "op", FLAG_PARAM, MemberShape::FoldLeft, a);
    let ghost s1 = *st;
    let m1 = two_clause_method(st, aops, "fold", "A1", "z", FLAG_PARAM, "op", FLAG_PARAM, MemberShape::Fold, a);
    let ghost s2 = *st;
    let m2 = two_clause_method(st, aops, "foldRight", "B", "z", FLAG_PARAM, "op", FLAG_PARAM, MemberShape::FoldRight, a);
    proof {
        let l = st0.syms@.len() as int;
        lemma_grows_trans(st0, s1, s2);
        lemma_grows_trans(st0, s2, *st);
        assert forall|k: int| 0 <= k < 4 implies kept(*st, s1, #[trigger] slot(l, k)) by {
            let i = slot(l, k).0 as int;
            assert(st.syms@[i].same_except_members(s2.syms@[i]));
            assert(s2.syms@[i].same_except_members(s1.syms@[i]));
            assert(st.syms@[i].members@ == s2.syms@[i].members@);
            assert(s2.syms@[i].members@ == s1.syms@[i].members@);
        }
        assert forall|k: int| 0 <= k < 4 implies kept(*st, s2, #[trigger] slot(l + 4, k)) by {
            let i = slot(l + 4, k).0 as int;
            assert(st.syms@[i].same_except_members(s2.syms@[i]));
            assert(st.syms@[i].members@ == s2.syms@[i].members@);
        }
        let a0 = st0.sym(aops).tparams@[0];
        lemma_shaped_kept(s1, *st, l, aops, "foldLeft"@, "B"@, "z"@, FLAG_PARAM, "op"@, FLAG_PARAM, MemberShape::FoldLeft, a0);
        lemma_shaped_kept(s2, *st, l + 4, aops, "fold"@, "A1"@, "z"@, FLAG_PARAM, "op"@, FLAG_PARAM, MemberShape::Fold, a0);
        assert(st.sym(aops).members@ =~= st0.sym(aops).members@ + seq![m0, m1, m2]);
    }
}

/// A final member `name(params)` of `owner`, in one clause (none when
/// `params` is empty), with no intrinsic and no JVM name; `ok` holds of its
/// result type.
pub open spec fn is_plain_member(s: Symbol, owner: SymbolId, name: Seq<char>, params: Seq<Ty>, ok: spec_fn(Ty) -> bool) -> bool {
    &&& sym_is(s, name, SymKind::Method, owner, FLAG_FINAL, ""@)
    &&& s.intrinsic == Intrinsic::Plain
    &&& SymbolTable::method_shape(s.ty) matches Some((cs, r)) && cs == clauses_of(params) && ok(r)
}

/// `ty` is class `c` applied to `args`.
pub open spec fn is_applied(ty: Ty, c: SymbolId, args: Seq<Ty>) -> bool {
    ty matches Ty::Class { sym, args: xs } && sym == c && xs@ == args
}

/// The class `c` applied to these arguments.
pub(crate) fn applied(c: SymbolId, args: Vec<Ty>) -> (ty: Ty)
    ensures
        is_applied(ty, c, args@),
{
    Ty::Class { sym: c, args }
}

/// The list `[t]`.
pub(crate) fn tys1(t: Ty) -> (v: Vec<Ty>)
    ensures
        v@ == seq![t],
{
    let mut v: Vec<Ty> = Vec::new();
    v.push(t);
    assert(v@ =~= seq![t]);
    v
}

/// The list `[t, u]`.
pub(crate) fn tys2(t: Ty, u: Ty) -> (v: Vec<Ty>)
    ensures
        v@ == seq![t, u],
{
    let mut v: Vec<Ty> = Vec::new();
    v.push(t);
    v.push(u);
    assert(v@ =~= seq![t, u]);
    v
}

/// `ArrayOps.zipWithIndex: Array[(A, Int)]`, `knownSize: Int` and
/// `sizeCompare(Int): Int`, in this order, with `tuple2` the class `Tuple2`.
pub fn add_array_ops_zip_index_size(st: &mut SymbolTable, aops: SymbolId, tuple2: SymbolId)
    requires
        old(st).wf(),
        old(st).valid(aops),
        old(st).sym(aops).tparams@.len() > 0,
        old(st).syms@.len() + 3 < u32::MAX,
    ensures
        final(st).wf(),
        final(st).grows_from(*old(st)),
        final(st).syms@.len() == old(st).syms@.len() + 3,
        ({
            let l = old(st).syms@.len() as int;
            let a = Ty::TypeParam(old(st).sym(aops).tparams@[0]);
            let n = *final(st);
            &&& n.sym(aops).members@ == old(st).sym(aops).members@ + seq![slot(l, 0), slot(l, 1), slot(l, 2)]
            &&& is_plain_member(
                n.sym(slot(l, 0)),
                aops,
                "zipWithIndex"@,
                seq![],
                |r: Ty| r matches Ty::Array(e) && is_applied(*e, tuple2, seq![a, Ty::Prim(Prim::Int)]),
            )
            &&& is_plain_member(n.sym(slot(l, 1)), aops, "knownSize"@, seq![], |r: Ty| r == Ty::Prim(Prim::Int))
            &&& is_plain_member(
                n.sym(slot(l, 2)),
                aops,
                "sizeCompare"@,
                seq![Ty::Prim(Prim::Int)],
                |r: Ty| r == Ty::Prim(Prim::Int),
            )
        }),
{
    let ghost st0 = *st;
    let a = st.get(aops).tparams[0];
    let pair = applied(tuple2, tys2(Ty::TypeParam(a), Ty::Prim(Prim::Int)));
    let m0 = method(st, aops, "zipWithIndex", Vec::new(), Ty::Array(Box::new(pair)), Intrinsic::Plain);
    let ghost s1 = *st;
    let m1 = method(st, aops, "knownSize", Vec::new(), Ty::Prim(Prim::Int), Intrinsic::Plain);
    let ghost s2 = *st;
    let p2 = tys1(Ty::Prim(Prim::Int));
    let m2 = method(st, aops, "sizeCompare", p2, Ty::Prim(Prim::Int), Intrinsic::Plain);
    proof {
        lemma_grows_trans(st0, s1, s2);
        lemma_grows_trans(st0, s2, *st);
        reveal_strlit("");
        assert(st.syms@[m0.0 as int].same_except_members(s1.syms@[m0.0 as int]));
        assert(st.syms@[m1.0 as int].same_except_members(s2.syms@[m1.0 as int]));
        assert(st.sym(aops).members@ =~= st0.sym(aops).members@ + seq![m0, m1, m2]);
        assert(st.sym(m0).jvm_name@ =~= ""@);
        assert(st.sym(m1).jvm_name@ =~= ""@);
        assert(st.sym(m2).jvm_name@ =~= ""@);
    }
}

/// `ArrayOps.lengthIs: Int`, `sizeIs: Int`, `indexOf(A, Int): Int`,
/// `copyToArray(Array[A]): Int` and `iterator: Iterator[A]`, in this order,
/// with `iterator` the class `Iterator`.
pub fn add_array_ops_length_index_copy(st: &mut SymbolTable, aops: SymbolId, iterator: SymbolId)
    requires
        old(st).wf(),
        old(st).valid(aops),
        old(st).sym(aops).tparams@.len() > 0,
        old(st).syms@.len() + 5 < u32::MAX,
    ensures
        final(st).wf(),
        final(st).grows_from(*old(st)),
        final(st).syms@.len() == old(st).syms@.len() + 5,
        ({
            let l = old(st).syms@.len() as int;
            let a = Ty::TypeParam(old(st).sym(aops).tparams@[0]);
            let n = *final(st);
            &&& n.sym(aops).members@ == old(st).sym(aops).members@ + Seq::new(5, |k: int| slot(l, k))
            &&& is_plain_member(n.sym(slot(l, 0)), aops, "lengthIs"@, seq![], |r: Ty| r == Ty::Prim(Prim::Int))
            &&& is_plain_member(n.sym(slot(l, 1)), aops, "sizeIs"@, seq![], |r: Ty| r == Ty::Prim(Prim::Int))
            &&& is_plain_member(
                n.sym(slot(l, 2)),
                aops,
                "indexOf"@,
                seq![a, Ty::Prim(Prim::Int)],
                |r: Ty| r == Ty::Prim(Prim::Int),
            )
            &&& is_plain_member(
                n.sym(slot(l, 3)),
                aops,
                "copyToArray"@,
                seq![Ty::Array(Box::new(a))],
                |r: Ty| r == Ty::Prim(Prim::Int),
            )
            &&& is_plain_member(n.sym(slot(l, 4)), aops, "iterator"@, seq![], |r: Ty| is_applied(r, iterator, seq![a]))
        }),
{
    let ghost st0 = *st;
    let a = st.get(aops).tparams[0];
    let m0 = method(st, aops, "lengthIs", Vec::new(), Ty::Prim(Prim::Int), Intrinsic::Plain);
    let ghost s1 = *st;
    let m1 = method(st, aops, "sizeIs", Vec::new(), Ty::Prim(Prim::Int), Intrinsic::Plain);
    let ghost s2 = *st;
    let p2 = tys2(Ty::TypeParam(a), Ty::Prim(Prim::Int));
    let m2 = method(st, aops, "indexOf", p2, Ty::Prim(Prim::Int), Intrinsic::Plain);
    let ghost s3 = *st;
    let p3 = tys1(Ty::Array(Box::new(Ty::TypeParam(a))));
    let m3 = method(st, aops, "copyToArray", p3, Ty::Prim(Prim::Int), Intrinsic::Plain);
    let ghost s4 = *st;
    let it = applied(iterator, tys1(Ty::TypeParam(a)));
    let m4 = method(st, aops, "iterator", Vec::new(), it, Intrinsic::Plain);
    proof {
        let l = st0.syms@.len() as int;
        lemma_grows_trans(st0, s1, s2);
        lemma_grows_trans(st0, s2, s3);
        lemma_grows_trans(st0, s3, s4);
        lemma_grows_trans(st0, s4, *st);
        reveal_strlit("");
        assert(st.syms@[m0.0 as int].same_except_members(s1.syms@[m0.0 as int]));
        assert(st.syms@[m1.0 as int].same_except_members(s2.syms@[m1.0 as int]));
        assert(st.syms@[m2.0 as int].same_except_members(s3.syms@[m2.0 as int]));
        assert(st.syms@[m3.0 as int].same_except_members(s4.syms@[m3.0 as int]));
        assert(st.sym(aops).members@ =~= st0.sym(aops).members@ + Seq::new(5, |k: int| slot(l, k)));
        assert(st.sym(m0).jvm_name@ =~= ""@);
        assert(st.sym(m1).jvm_name@ =~= ""@);
        assert(st.sym(m2).jvm_name@ =~= ""@);
        assert(st.sym(m3).jvm_name@ =~= ""@);
        assert(st.sym(m4).jvm_name@ =~= ""@);
    }
}

/// A final member `name` of `owner` with no intrinsic and no JVM name, of
/// parameters `p` over the element type `a` (no clause when it takes
/// nothing, else one); `ok` holds of its result type.
pub open spec fn is_ops_member_with(s: Symbol, owner: SymbolId, name: Seq<char>, p: OpsParams, a: SymbolId, ok: spec_fn(Ty) -> bool) -> bool {
    &&& sym_is(s, name, SymKind::Method, owner, FLAG_FINAL, ""@)
    &&& s.intrinsic == Intrinsic::Plain
    &&& (s.ty matches Ty::Method { paramss, ret } && (if p == OpsParams::Nothing {
        paramss@.len() == 0
    } else {
        paramss@.len() == 1 && params_ok(paramss@[0]@, p, a)
    }) && ok(*ret))
}

/// The member `name` of `owner`, of parameters `p` over `a`, answering `ret`.
pub(crate) fn ops_method(st: &mut SymbolTable, owner: SymbolId, name: &str, p: OpsParams, a: SymbolId, ret: Ty) -> (id: SymbolId)
    requires
        old(st).wf(),
        old(st).valid(owner),
        old(st).syms@.len() + 1 < u32::MAX,
    ensures
        final(st).wf(),
        final(st).grows_from(*old(st)),
        id == slot(old(st).syms@.len() as int, 0),
        final(st).syms@.len() == old(st).syms@.len() + 1,
        final(st).sym(owner).members@ == old(st).sym(owner).members@.push(id),
        forall|i: int| 0 <= i < old(st).syms@.len() && i != owner.0 ==> (#[trigger] final(st).syms@[i]).members@ == old(st).syms@[i].members@,
        is_ops_member_with(final(st).sym(id), owner, name@, p, a, |r: Ty| r == ret),
{
    let params = params_of(p, a);
    let ghost pg = params@;
    let ghost rg = ret;
    let id = method(st, owner, name, params, ret, Intrinsic::Plain);
    proof {
        reveal_strlit("");
        assert(st.sym(id).jvm_name@ =~= ""@);
        match st.sym(id).ty {
            Ty::Method { paramss, ret: r } => {
                assert(paramss@.map_values(|c: Vec<Ty>| c@).len() == paramss@.len());
                if p != OpsParams::Nothing {
                    assert(pg.len() > 0);
                    assert(paramss@.map_values(|c: Vec<Ty>| c@)[0] == paramss@[0]@);
                } else {
                    assert(pg.len() == 0);
                }
                assert(*r == rg);
            },
            _ => {},
        }
    }
    id
}

/// The pair type `(Array[A], Array[A])`, with `tuple2` the class `Tuple2`.
fn array_pair(tuple2: SymbolId, a: SymbolId) -> (t: Ty)
    ensures
        is_applied(t, tuple2, seq![Ty::Array(Box::new(Ty::TypeParam(a))), Ty::Array(Box::new(Ty::TypeParam(a)))]),
{
    applied(tuple2, tys2(Ty::Array(Box::new(Ty::TypeParam(a))), Ty::Array(Box::new(Ty::TypeParam(a)))))
}

/// `ArrayOps.filterNot(A => Boolean): Array[A]`, `headOption: Option[A]`,
/// `lastOption: Option[A]`, `partition(A => Boolean): (Array[A], Array[A])`,
/// `splitAt(Int): (Array[A], Array[A])` and `span(A => Boolean): (Array[A],
/// Array[A])`, in this order, with `tuple2` the class `Tuple2`.
pub fn add_array_ops_filter_not_opts_part(st: &mut SymbolTable, aops: SymbolId, tuple2: SymbolId)
    requires
        old(st).wf(),
        old(st).valid(aops),
        old(st).option_sym is Some,
        old(st).sym(aops).tparams@.len() > 0,
        old(st).syms@.len() + 6 < u32::MAX,
    ensures
        final(st).wf(),
        final(st).grows_from(*old(st)),
        final(st).syms@.len() == old(st).syms@.len() + 6,
        ({
            let l = old(st).syms@.len() as int;
            let a = old(st).sym(aops).tparams@[0];
            let arr = Ty::Array(Box::new(Ty::TypeParam(a)));
            let opt = |r: Ty| is_applied(r, old(st).option_sym.unwrap(), seq![Ty::TypeParam(a)]);
            let pair = |r: Ty| is_applied(r, tuple2, seq![arr, arr]);
            let n = *final(st);
            &&& n.sym(aops).members@ == old(st).sym(aops).members@ + Seq::new(6, |k: int| slot(l, k))
            &&& is_ops_member_with(n.sym(slot(l, 0)), aops, "filterNot"@, OpsParams::Pred, a, |r: Ty| r == arr)
            &&& is_ops_member_with(n.sym(slot(l, 1)), aops, "headOption"@, OpsParams::Nothing, a, opt)
            &&& is_ops_member_with(n.sym(slot(l, 2)), aops, "lastOption"@, OpsParams::Nothing, a, opt)
            &&& is_ops_member_with(n.sym(slot(l, 3)), aops, "partition"@, OpsParams::Pred, a, pair)
            &&& is_ops_member_with(n.sym(slot(l, 4)), aops, "splitAt"@, OpsParams::Count, a, pair)
            &&& is_ops_member_with(n.sym(slot(l, 5)), aops, "span"@, OpsParams::Pred, a, pair)
        }),
{
    let ghost st0 = *st;
    let a = st.get(aops).tparams[0];
    let option = st.option_sym.unwrap();
    let arr = Ty::Array(Box::new(Ty::TypeParam(a)));
    let m0 = ops_method(st, aops, "filterNot", OpsParams::Pred, a, arr);
    let ghost s1 = *st;
    let m1 = ops_method(st, aops, "headOption", OpsParams::Nothing, a, applied(option, tys1(Ty::TypeParam(a))));
    let ghost s2 = *st;
    let m2 = ops_method(st, aops, "lastOption", OpsParams::Nothing, a, applied(option, tys1(Ty::TypeParam(a))));
    let ghost s3 = *st;
    let m3 = ops_method(st, aops, "partition", OpsParams::Pred, a, array_pair(tuple2, a));
    let ghost s4 = *st;
    let m4 = ops_method(st, aops, "splitAt", OpsParams::Count, a, array_pair(tuple2, a));
    let ghost s5 = *st;
    let m5 = ops_method(st, aops, "span", OpsParams::Pred, a, array_pair(tuple2, a));
    proof {
        let l = st0.syms@.len() as int;
        lemma_grows_trans(st0, s1, s2);
        lemma_grows_trans(st0, s2, s3);
        lemma_grows_trans(st0, s3, s4);
        lemma_grows_trans(st0, s4, s5);
        lemma_grows_trans(st0, s5, *st);
        assert(st.syms@[m0.0 as int].same_except_members(s1.syms@[m0.0 as int]));
        assert(st.syms@[m1.0 as int].same_except_members(s2.syms@[m1.0 as int]));
        assert(st.syms@[m2.0 as int].same_except_members(s3.syms@[m2.0 as int]));
        assert(st.syms@[m3.0 as int].same_except_members(s4.syms@[m3.0 as int]));
        assert(st.syms@[m4.0 as int].same_except_members(s5.syms@[m4.0 as int]));
        assert(st.sym(aops).members@ =~= st0.sym(aops).members@ + Seq::new(6, |k: int| slot(l, k)));
    }
}

/// The first of `ms` from `j` on named `name`.
pub open spec fn first_named(st: SymbolTable, ms: Seq<SymbolId>, name: Seq<char>, j: int) -> Option<SymbolId>
    decreases ms.len() - j,
{
    if j < 0 || j >= ms.len() {
        None
    } else if st.sym(ms[j]).name@ == name {
        Some(ms[j])
    } else {
        first_named(st, ms, name, j + 1)
    }
}

/// The id that names no symbol: no table that is well formed reaches it.
pub open spec fn no_symbol() -> SymbolId {
    SymbolId(0xffff_ffff)
}

/// The class `PartialFunction` as `collect` refers to it: the first member
/// of `scala` so named, or no symbol.
pub open spec fn partial_function_of(st: SymbolTable, scala: SymbolId) -> SymbolId {
    match first_named(st, st.sym(scala).members@, "PartialFunction"@, 0) {
        Some(p) => p,
        None => no_symbol(),
    }
}

/// The first member of `owner` named `name`.
pub(crate) fn find_member_named(st: &SymbolTable, owner: SymbolId, name: &str) -> (r: Option<SymbolId>)
    requires
        st.wf(),
        st.valid(owner),
    ensures
        r == first_named(*st, st.sym(owner).members@, name@, 0),
{
    let ms = &st.get(owner).members;
    let mut j: usize = 0;
    while j < ms.len()
        invariant
            st.wf(),
            st.valid(owner),
            *ms == st.sym(owner).members,
            j <= ms@.len(),
            first_named(*st, ms@, name@, 0) == first_named(*st, ms@, name@, j as int),
        decreases ms@.len() - j,
    {
        let id = ms[j];
        proof {
            assert(st.valid(id));
        }
        if str_eq(st.get(id).name.as_str(), name) {
            return Some(id);
        }
        j += 1;
    }
    None
}

/// `ArrayOps.collect[B](pf: PartialFunction[A, B])(implicit evidence$1:
/// ClassTag[B]): Array[B]`, with `ct` the class `ClassTag`;
/// `PartialFunction` is the first member of `scala` of that name, or no
/// symbol where there is none.
pub fn add_array_ops_collect(st: &mut SymbolTable, aops: SymbolId, ct: SymbolId)
    requires
        old(st).wf(),
        old(st).valid(aops),
        old(st).scala_pkg is Some,
        old(st).sym(aops).tparams@.len() > 0,
        old(st).syms@.len() + 4 < u32::MAX,
    ensures
        final(st).wf(),
        final(st).grows_from(*old(st)),
        final(st).syms@.len() == old(st).syms@.len() + 4,
        final(st).sym(aops).members@ == old(st).sym(aops).members@.push(slot(old(st).syms@.len() as int, 0)),
        shaped_member(
            *final(st),
            old(st).syms@.len() as int,
            aops,
            "collect"@,
            "B"@,
            "pf"@,
            FLAG_PARAM,
            "evidence$1"@,
            FLAG_PARAM | FLAG_IMPLICIT,
            MemberShape::Collect { partial: partial_function_of(*old(st), old(st).scala_pkg.unwrap()), tag: ct },
            old(st).sym(aops).tparams@[0],
        ),
{
    let scala = st.scala_pkg.unwrap();
    let pf = match find_member_named(st, scala, "PartialFunction") {
        Some(p) => p,
        None => SymbolId(0xffff_ffff),
    };
    let a = st.get(aops).tparams[0];
    two_clause_method(
        st,
        aops,
        "collect",
        "B",
        "pf",
        FLAG_PARAM,
        "evidence$1",
        FLAG_PARAM | FLAG_IMPLICIT,
        MemberShape::Collect { partial: pf, tag: ct },
        a,
    );
}

/// The companion `scala.Array` with `apply[T](xs: T*)(implicit
/// evidence$1: ClassTag[T]): Array[T]` on its module class, with `ct` the
/// class `ClassTag`; the module itself lists the module class's members too.
/// The answer is the module.
pub fn add_array_companion(st: &mut SymbolTable, ct: SymbolId) -> (am: SymbolId)
    requires
        old(st).wf(),
        old(st).scala_pkg is Some,
        old(st).syms@.len() + 6 < u32::MAX,
    ensures
        final(st).wf(),
        final(st).grows_from(*old(st)),
        final(st).syms@.len() == old(st).syms@.len() + 6,
        ({
            let l = old(st).syms@.len() as int;
            let scala = old(st).scala_pkg.unwrap();
            let mc = slot(l, 0);
            let n = *final(st);
            &&& am == slot(l, 1)
            &&& fresh_symbol_but_members(n.sym(mc), "Array$"@, SymKind::ModuleClass, Some(scala), FLAG_MODULE | FLAG_FINAL, "scala/Array$"@)
            &&& fresh_symbol_but_members(n.sym(am), "Array"@, SymKind::Module, Some(scala), FLAG_MODULE, "scala/Array$"@)
            &&& n.sym(mc).ty == Ty::ModuleRef(mc) && n.sym(am).ty == Ty::ModuleRef(mc)
            &&& n.sym(scala).members@ == old(st).sym(scala).members@.push(mc).push(am)
            &&& n.sym(mc).members@ == seq![slot(l, 2)]
            &&& n.sym(am).members@ == seq![slot(l, 2)]
            &&& shaped_member(
                n,
                l + 2,
                mc,
                "apply"@,
                "T"@,
                "xs"@,
                FLAG_PARAM,
                "evidence$1"@,
                FLAG_PARAM | FLAG_IMPLICIT,
                MemberShape::ArrayApply { tag: ct },
                mc,
            )
        }),
{
    let ghost st0 = *st;
    let ghost l = st0.syms@.len() as int;
    let scala = st.scala_pkg.unwrap();
    let am = module(st, scala, "Array", "scala/Array$");
    let ghost s1 = *st;
    let mc = SymbolId(am.0 - 1);
    proof {
        assert(spec_module_class_of(s1, am) == Some(mc));
    }
    let apply = two_clause_method(
        st,
        mc,
        "apply",
        "T",
        "xs",
        FLAG_PARAM,
        "evidence$1",
        FLAG_PARAM | FLAG_IMPLICIT,
        MemberShape::ArrayApply { tag: ct },
        mc,
    );
    let ghost s2 = *st;
    let mems = st.get(mc).members.clone();
    proof {
        assert(mems@ == s2.sym(mc).members@);
        assert(s1.sym(mc).members@.len() == 0);
        assert(s2.sym(mc).members@ =~= seq![apply]);
    }
    st.extend_members(am, &mems);
    proof {
        lemma_grows_trans(st0, s1, s2);
        lemma_grows_trans(st0, s2, *st);
        assert(st.sym(am).members@ =~= seq![apply]);
        assert forall|k: int| 0 <= k < 4 implies kept(*st, s2, #[trigger] slot(l + 2, k)) by {
            let i = slot(l + 2, k).0 as int;
            assert(st.syms@[i].same_except_members(s2.syms@[i]));
            assert(st.syms@[i].members@ == s2.syms@[i].members@);
        }
        lemma_shaped_kept(
            s2,
            *st,
            l + 2,
            mc,
            "apply"@,
            "T"@,
            "xs"@,
            FLAG_PARAM,
            "evidence$1"@,
            FLAG_PARAM | FLAG_IMPLICIT,
            MemberShape::ArrayApply { tag: ct },
            mc,
        );
        assert(st.syms@[mc.0 as int].same_except_members(s1.syms@[mc.0 as int]));
        assert(st.syms@[am.0 as int].same_except_members(s1.syms@[am.0 as int]));
        assert(st.syms@[mc.0 as int].members@ == s2.syms@[mc.0 as int].members@);
        assert(st.syms@[scala.0 as int].members@ == s2.syms@[scala.0 as int].members@);
        assert(s2.syms@[scala.0 as int].members@ == s1.syms@[scala.0 as int].members@);
        assert(st.sym(mc).members@ =~= seq![slot(l, 2)]);
        reveal_strlit("Array");
        reveal_strlit("$");
        reveal_strlit("Array$");
        assert("Array"@ + "$"@ =~= "Array$"@);
        assert(fresh_symbol_but_members(st.sym(mc), "Array$"@, SymKind::ModuleClass, Some(scala), FLAG_MODULE | FLAG_FINAL, "scala/Array$"@));
        assert(fresh_symbol_but_members(st.sym(am), "Array"@, SymKind::Module, Some(scala), FLAG_MODULE, "scala/Array$"@));
    }
    am
}

/// What `fresh_symbol` says of a symbol, but for its members.
pub open spec fn fresh_symbol_but_members(s: Symbol, name: Seq<char>, kind: SymKind, owner: Option<SymbolId>, flags: u64, jvm: Seq<char>) -> bool {
    &&& s.name@ == name
    &&& s.kind == kind
    &&& s.owner == owner
    &&& s.flags == flags
    &&& s.jvm_name@ == jvm
    &&& s.params@.len() == 0
    &&& s.paramss@.len() == 0
    &&& s.tparams@.len() == 0
    &&& s.ctor_fields@.len() == 0
    &&& s.bound_hi is None
    &&& s.intrinsic == Intrinsic::Plain
}

/// `ArrayOps.find(A => Boolean): Option[A]`, `contains(A): Boolean`,
/// `distinct: Array[A]`, `takeRight(Int): Array[A]`, `dropRight(Int):
/// Array[A]`, `takeWhile(A => Boolean): Array[A]`, `lengthCompare(Int): Int`
/// and `indices: Range`, in this order, with `range` the class `Range`.
pub fn add_array_ops_remaining(st: &mut SymbolTable, aops: SymbolId, range: SymbolId)
    requires
        old(st).wf(),
        old(st).valid(aops),
        old(st).option_sym is Some,
        old(st).sym(aops).tparams@.len() > 0,
        old(st).syms@.len() + 8 < u32::MAX,
    ensures
        final(st).wf(),
        final(st).grows_from(*old(st)),
        final(st).syms@.len() == old(st).syms@.len() + 8,
        ({
            let l = old(st).syms@.len() as int;
            let a = old(st).sym(aops).tparams@[0];
            let arr = |r: Ty| r == Ty::Array(Box::new(Ty::TypeParam(a)));
            let n = *final(st);
            &&& n.sym(aops).members@ == old(st).sym(aops).members@ + Seq::new(8, |k: int| slot(l, k))
            &&& is_ops_member_with(
                n.sym(slot(l, 0)),
                aops,
                "find"@,
                OpsParams::Pred,
                a,
                |r: Ty| is_applied(r, old(st).option_sym.unwrap(), seq![Ty::TypeParam(a)]),
            )
            &&& is_ops_member_with(n.sym(slot(l, 1)), aops, "contains"@, OpsParams::Elem, a, |r: Ty| r == Ty::Prim(Prim::Boolean))
            &&& is_ops_member_with(n.sym(slot(l, 2)), aops, "distinct"@, OpsParams::Nothing, a, arr)
            &&& is_ops_member_with(n.sym(slot(l, 3)), aops, "takeRight"@, OpsParams::Count, a, arr)
            &&& is_ops_member_with(n.sym(slot(l, 4)), aops, "dropRight"@, OpsParams::Count, a, arr)
            &&& is_ops_member_with(n.sym(slot(l, 5)), aops, "takeWhile"@, OpsParams::Pred, a, arr)
            &&& is_ops_member_with(n.sym(slot(l, 6)), aops, "lengthCompare"@, OpsParams::Count, a, |r: Ty| r == Ty::Prim(Prim::Int))
            &&& is_ops_member_with(n.sym(slot(l, 7)), aops, "indices"@, OpsParams::Nothing, a, |r: Ty| is_applied(r, range, seq![]))
        }),
{
    let ghost st0 = *st;
    let a = st.get(aops).tparams[0];
    let option = st.option_sym.unwrap();
    let m0 = ops_method(st, aops, "find", OpsParams::Pred, a, applied(option, tys1(Ty::TypeParam(a))));
    let ghost s1 = *st;
    let m1 = ops_method(st, aops, "contains", OpsParams::Elem, a, Ty::Prim(Prim::Boolean));
    let ghost s2 = *st;
    let m2 = ops_method(st, aops, "distinct", OpsParams::Nothing, a, Ty::Array(Box::new(Ty::TypeParam(a))));
    let ghost s3 = *st;
    let m3 = ops_method(st, aops, "takeRight", OpsParams::Count, a, Ty::Array(Box::new(Ty::TypeParam(a))));
    let ghost s4 = *st;
    let m4 = ops_method(st, aops, "dropRight", OpsParams::Count, a, Ty::Array(Box::new(Ty::TypeParam(a))));
    let ghost s5 = *st;
    let m5 = ops_method(st, aops, "takeWhile", OpsParams::Pred, a, Ty::Array(Box::new(Ty::TypeParam(a))));
    let ghost s6 = *st;
    let m6 = ops_method(st, aops, "lengthCompare", OpsParams::Count, a, Ty::Prim(Prim::Int));
    let ghost s7 = *st;
    let no_args: Vec<Ty> = Vec::new();
    let m7 = ops_method(st, aops, "indices", OpsParams::Nothing, a, applied(range, no_args));
    proof {
        let l = st0.syms@.len() as int;
        lemma_grows_trans(st0, s1, s2);
        lemma_grows_trans(st0, s2, s3);
        lemma_grows_trans(st0, s3, s4);
        lemma_grows_trans(st0, s4, s5);
        lemma_grows_trans(st0, s5, s6);
        lemma_grows_trans(st0, s6, s7);
        lemma_grows_trans(st0, s7, *st);
        assert(st.syms@[m0.0 as int].same_except_members(s1.syms@[m0.0 as int]));
        assert(st.syms@[m1.0 as int].same_except_members(s2.syms@[m1.0 as int]));
        assert(st.syms@[m2.0 as int].same_except_members(s3.syms@[m2.0 as int]));
        assert(st.syms@[m3.0 as int].same_except_members(s4.syms@[m3.0 as int]));
        assert(st.syms@[m4.0 as int].same_except_members(s5.syms@[m4.0 as int]));
        assert(st.syms@[m5.0 as int].same_except_members(s6.syms@[m5.0 as int]));
        assert(st.syms@[m6.0 as int].same_except_members(s7.syms@[m6.0 as int]));
        assert(st.sym(aops).members@ =~= st0.sym(aops).members@ + Seq::new(8, |k: int| slot(l, k)));
    }
}

/// The five symbols from slot `l` on are `scanLeft[B](z: B)(op: (B, A) =>
/// B)(implicit evidence$1: ct[B]): Array[B]` on `owner`, with `a` for `A`:
/// the method, `B`, `z`, `op` and the evidence.
pub open spec fn scan_left_member(n: SymbolTable, l: int, owner: SymbolId, ct: SymbolId, a: SymbolId) -> bool {
    let m = slot(l, 0);
    let b = slot(l, 1);
    let tb = Ty::TypeParam(b);
    let (z, op, ev) = (slot(l, 2), slot(l, 3), slot(l, 4));
    let s = n.sym(m);
    &&& sym_is(s, "scanLeft"@, SymKind::Method, owner, FLAG_FINAL, ""@)
    &&& s.intrinsic == Intrinsic::Plain
    &&& s.tparams@ == seq![b]
    &&& s.params@ == seq![z, op, ev]
    &&& s.paramss@.len() == 3 && s.paramss@[0]@ == seq![z] && s.paramss@[1]@ == seq![op] && s.paramss@[2]@ == seq![ev]
    &&& s.members@ == seq![b, z, op, ev]
    &&& (s.ty matches Ty::Method { paramss, ret } && paramss@.len() == 3 && paramss@[0]@ == seq![tb] && paramss@[1]@.len()
        == 1 && is_fn_type(paramss@[1]@[0], seq![tb, Ty::TypeParam(a)], tb) && paramss@[2]@.len() == 1 && is_class_of(
        paramss@[2]@[0],
        ct,
        b,
    ) && *ret == Ty::Array(Box::new(tb)))
    &&& is_type_param(n.sym(b), b, m, "B"@)
    &&& fresh_symbol(n.sym(z), "z"@, SymKind::Term, Some(m), FLAG_PARAM, ""@) && n.sym(z).ty == tb
    &&& fresh_symbol(n.sym(op), "op"@, SymKind::Term, Some(m), FLAG_PARAM, ""@) && is_fn_type(
        n.sym(op).ty,
        seq![tb, Ty::TypeParam(a)],
        tb,
    )
    &&& fresh_symbol(n.sym(ev), "evidence$1"@, SymKind::Term, Some(m), FLAG_PARAM | FLAG_IMPLICIT, ""@) && is_class_of(
        n.sym(ev).ty,
        ct,
        b,
    )
}

/// `ArrayOps.scanLeft[B](z: B)(op: (B, A) => B)(implicit evidence$1:
/// ClassTag[B]): Array[B]`, with `ct` the class `ClassTag` of
/// `scala.reflect`.
pub fn add_array_ops_scan_left(st: &mut SymbolTable, aops: SymbolId, ct: SymbolId)
    requires
        old(st).wf(),
        old(st).valid(aops),
        old(st).sym(aops).tparams@.len() > 0,
        old(st).syms@.len() + 5 < u32::MAX,
    ensures
        final(st).wf(),
        final(st).grows_from(*old(st)),
        final(st).syms@.len() == old(st).syms@.len() + 5,
        final(st).sym(aops).members@ == old(st).sym(aops).members@.push(slot(old(st).syms@.len() as int, 0)),
        scan_left_member(*final(st), old(st).syms@.len() as int, aops, ct, old(st).sym(aops).tparams@[0]),
{
    let ghost st0 = *st;
    let ghost l = st0.syms@.len() as int;
    let a = st.get(aops).tparams[0];
    let m = method(st, aops, "scanLeft", Vec::new(), Ty::Unit, Intrinsic::Plain);
    let ghost s1 = *st;
    let b = type_param(st, m, "B");
    let ghost s2 = *st;
    let z = value_param(st, m, "z", FLAG_PARAM, Ty::TypeParam(b));
    let ghost s3 = *st;
    let op = value_param(st, m, "op", FLAG_PARAM, fn2(Ty::TypeParam(b), Ty::TypeParam(a), Ty::TypeParam(b)));
    let ghost s4 = *st;
    let ev = value_param(st, m, "evidence$1", FLAG_PARAM | FLAG_IMPLICIT, applied(ct, tys1(Ty::TypeParam(b))));
    let ghost s5 = *st;
    let tv = vec![b];
    let ghost tg = tv;
    st.set_tparams(m, tv);
    let ghost s6 = *st;
    let pv = vec![z, op, ev];
    let ghost pg = pv;
    st.set_params(m, pv);
    let ghost s7 = *st;
    let (c0, c1, c2) = (vec![z], vec![op], vec![ev]);
    let ghost (c0g, c1g, c2g) = (c0@, c1@, c2@);
    let pss = vec![c0, c1, c2];
    let ghost pssg = pss;
    st.set_paramss(m, pss);
    let ghost s8 = *st;
    let t0 = tys1(Ty::TypeParam(b));
    let t1 = tys1(fn2(Ty::TypeParam(b), Ty::TypeParam(a), Ty::TypeParam(b)));
    let t2 = tys1(applied(ct, tys1(Ty::TypeParam(b))));
    let ty = Ty::Method { paramss: vec![t0, t1, t2], ret: Box::new(Ty::Array(Box::new(Ty::TypeParam(b)))) };
    let ghost tyg = ty;
    st.set_ty(m, ty);
    proof {
        lemma_grows_trans(st0, s1, s2);
        lemma_grows_trans(st0, s2, s3);
        lemma_grows_trans(st0, s3, s4);
        lemma_grows_trans(st0, s4, s5);
        lemma_grows_fresh_slot(st0, s5, s6, m, Symbol { tparams: tg, ..s5.sym(m) });
        lemma_grows_fresh_slot(st0, s6, s7, m, Symbol { params: pg, ..s6.sym(m) });
        lemma_grows_fresh_slot(st0, s7, s8, m, Symbol { paramss: pssg, ..s7.sym(m) });
        lemma_grows_fresh_slot(st0, s8, *st, m, Symbol { ty: tyg, ..s8.sym(m) });
        reveal_strlit("");
        assert(tg@ == seq![b] && pg@ == seq![z, op, ev] && c0g == seq![z] && c1g == seq![op] && c2g == seq![ev]);
        assert(st.syms@[b.0 as int].same_except_members(s2.syms@[b.0 as int]));
        assert(st.syms@[b.0 as int].members@ == s2.syms@[b.0 as int].members@);
        assert(st.syms@[z.0 as int].same_except_members(s3.syms@[z.0 as int]));
        assert(st.syms@[z.0 as int].members@ == s3.syms@[z.0 as int].members@);
        assert(st.syms@[op.0 as int].same_except_members(s4.syms@[op.0 as int]));
        assert(st.syms@[op.0 as int].members@ == s4.syms@[op.0 as int].members@);
        assert(st.syms@[ev.0 as int].same_except_members(s5.syms@[ev.0 as int]));
        assert(st.sym(m).members@ =~= seq![b, z, op, ev]);
        assert(st.sym(m).jvm_name@ =~= ""@);
    }
}

/// Every field but the member and parent lists is the same.
pub open spec fn same_but_members_parents(s: Symbol, o: Symbol) -> bool {
    &&& s.name == o.name
    &&& s.kind == o.kind
    &&& s.owner == o.owner
    &&& s.flags == o.flags
    &&& s.jvm_name == o.jvm_name
    &&& s.params == o.params
    &&& s.tparams == o.tparams
    &&& s.paramss == o.paramss
    &&& s.ctor_fields == o.ctor_fields
    &&& s.ty == o.ty
    &&& s.bound_hi == o.bound_hi
    &&& s.intrinsic == o.intrinsic
}

/// Some parent in `ps` is class `c` applied to something.
pub open spec fn names_class(ps: Seq<Ty>, c: SymbolId) -> bool {
    exists|k: int| 0 <= k < ps.len() && SymbolTable::class_of_ty(#[trigger] ps[k]) == Some(c)
}

pub(crate) fn has_class_parent(ps: &Vec<Ty>, c: SymbolId) -> (r: bool)
    ensures
        r == names_class(ps@, c),
{
    let mut k: usize = 0;
    while k < ps.len()
        invariant
            k <= ps@.len(),
            forall|j: int| 0 <= j < k ==> SymbolTable::class_of_ty(#[trigger] ps@[j]) != Some(c),
        decreases ps@.len() - k,
    {
        match &ps[k] {
            Ty::Class { sym, .. } => {
                if *sym == c {
                    return true;
                }
            },
            _ => {},
        }
        k += 1;
    }
    false
}

/// What `add_array_ops_zip` makes of `o`, giving `n`, from slot `l` on:
/// the trait `IterableOnce[A]` under `coll`; `List[X]` (the table's list
/// class) extends `IterableOnce[X]` when it has a type parameter `X`; and
/// `zip[B](that: IterableOnce[B]): Array[(A, B)]` on `aops`.
pub open spec fn zip_installed(o: SymbolTable, n: SymbolTable, aops: SymbolId, tuple2: SymbolId, coll: SymbolId) -> bool {
    let l = o.syms@.len() as int;
    let (ioc, ia, m, b, that) = (slot(l, 0), slot(l, 1), slot(l, 2), slot(l, 3), slot(l, 4));
    let list = o.list_sym.unwrap();
    let a = o.sym(aops).tparams@[0];
    let tb = Ty::TypeParam(b);
    &&& n.syms@.len() == l + 5
    &&& n.scope == o.scope
    &&& n.same_well_known(o)
    &&& forall|i: int|
        0 <= i < l ==> {
            let (s, p) = (#[trigger] n.syms@[i], o.syms@[i]);
            &&& i != list.0 ==> s.same_except_members(p)
            &&& s.members@ == p.members@ + (if i == coll.0 {
                seq![ioc]
            } else {
                seq![]
            }) + (if i == aops.0 {
                seq![m]
            } else {
                seq![]
            })
        }
    &&& same_but_members_parents(n.sym(list), o.sym(list))
    &&& if o.sym(list).tparams@.len() > 0 {
        let ps = o.sym(list).parents@;
        &&& n.sym(list).parents@.len() == ps.len() + 1
        &&& n.sym(list).parents@.take(ps.len() as int) == ps
        &&& is_applied(n.sym(list).parents@.last(), ioc, seq![Ty::TypeParam(o.sym(list).tparams@[0])])
    } else {
        n.sym(list).parents@ == o.sym(list).parents@
    }
    &&& sym_is(n.sym(ioc), "IterableOnce"@, SymKind::Class, coll, iface_flags(), "scala/collection/IterableOnce"@)
    &&& n.sym(ioc).parents@ == seq![Ty::AnyRef]
    &&& n.sym(ioc).tparams@ == seq![ia]
    &&& n.sym(ioc).members@ == seq![ia]
    &&& is_type_param(n.sym(ia), ia, ioc, "A"@)
    &&& sym_is(n.sym(m), "zip"@, SymKind::Method, aops, FLAG_FINAL, ""@)
    &&& n.sym(m).intrinsic == Intrinsic::Plain
    &&& n.sym(m).tparams@ == seq![b]
    &&& n.sym(m).params@ == seq![that]
    &&& n.sym(m).paramss@.len() == 1 && n.sym(m).paramss@[0]@ == seq![that]
    &&& n.sym(m).members@ == seq![b, that]
    &&& (n.sym(m).ty matches Ty::Method { paramss, ret } && paramss@.len() == 1 && paramss@[0]@.len() == 1 && is_applied(
        paramss@[0]@[0],
        ioc,
        seq![tb],
    ) && (*ret matches Ty::Array(e) && is_applied(*e, tuple2, seq![Ty::TypeParam(a), tb])))
    &&& is_type_param(n.sym(b), b, m, "B"@)
    &&& fresh_symbol(n.sym(that), "that"@, SymKind::Term, Some(m), FLAG_PARAM, ""@) && is_applied(n.sym(that).ty, ioc, seq![tb])
}

/// `ArrayOps.zip[B](that: IterableOnce[B]): Array[(A, B)]`, with `tuple2`
/// the class `Tuple2` and `coll` the package `scala.collection`, under which
/// the trait `IterableOnce[A]` is declared; the table's `List[X]` is made to
/// extend `IterableOnce[X]` unless it already extends it.
#[verifier::spinoff_prover]
#[verifier::rlimit(60)]
pub fn add_array_ops_zip(st: &mut SymbolTable, aops: SymbolId, tuple2: SymbolId, coll: SymbolId)
    requires
        old(st).wf(),
        old(st).valid(aops),
        old(st).valid(coll),
        old(st).list_sym is Some,
        old(st).sym(aops).tparams@.len() > 0,
        old(st).syms@.len() + 5 < u32::MAX,
    ensures
        final(st).wf(),
        zip_installed(*old(st), *final(st), aops, tuple2, coll),
{
    let ghost st0 = *st;
    let ghost l = st0.syms@.len() as int;
    let ioc = iface(st, coll, "IterableOnce", "scala/collection/IterableOnce");
    let ghost s1 = *st;
    if st.get(ioc).tparams.len() == 0 {
        let ia = type_param(st, ioc, "A");
        let ghost s2 = *st;
        let tv = vec![ia];
        let ghost tg = tv;
        st.set_tparams(ioc, tv);
        proof {
            lemma_grows_trans(st0, s1, s2);
            lemma_grows_fresh_slot(st0, s2, *st, ioc, Symbol { tparams: tg, ..s2.sym(ioc) });
            assert(tg@ == seq![ia]);
            assert(st.syms@[ia.0 as int].same_except_members(s2.syms@[ia.0 as int]));
            assert forall|i: int| 0 <= i < l implies (#[trigger] st.syms@[i]).members@ == st0.syms@[i].members@ + (if i
                == coll.0 {
                seq![ioc]
            } else {
                seq![]
            }) by {
                assert(st.syms@[i].members@ == s2.syms@[i].members@);
                assert(s2.syms@[i].members@ == s1.syms@[i].members@);
                if i == coll.0 {
                    assert(s1.syms@[i].members@ =~= st0.syms@[i].members@ + seq![ioc]);
                } else {
                    assert(s1.syms@[i].members@ =~= st0.syms@[i].members@ + seq![]);
                }
            }
        }
    }
    let ghost sa = *st;
    proof {
        assert(sa.grows_from(st0));
        assert(sa.syms@.len() == l + 2);
        assert(sa.sym(ioc).tparams@ == seq![slot(l, 1)]);
        assert(sa.sym(ioc).members@ =~= seq![slot(l, 1)]);
    }
    let list = st.list_sym.unwrap();
    proof {
        let ps = sa.sym(list).parents@;
        assert(sa.syms@[list.0 as int].same_except_members(st0.syms@[list.0 as int]));
        assert forall|k: int| 0 <= k < ps.len() implies SymbolTable::class_of_ty(#[trigger] ps[k]) != Some(ioc) by {
            assert(st0.parent_ok(st0.syms@[list.0 as int].parents@[k]));
        }
    }
    if st.get(list).tparams.len() > 0 {
        let la = st.get(list).tparams[0];
        let parent = applied(ioc, tys1(Ty::TypeParam(la)));
        if !has_class_parent(&st.get(list).parents, ioc) {
            st.push_parent(list, parent);
        }
    }
    let ghost sb = *st;
    proof {
        assert(sb.wf());
        assert(sb.syms@.len() == l + 2);
        assert(forall|i: int| 0 <= i < l + 2 && i != list.0 ==> #[trigger] sb.syms@[i] == sa.syms@[i]);
        assert(sb.sym(list).same_except_parents(sa.sym(list)));
    }
    let a = st.get(aops).tparams[0];
    let m = method(st, aops, "zip", Vec::new(), Ty::Unit, Intrinsic::Plain);
    let ghost s3 = *st;
    let b = type_param(st, m, "B");
    let ghost s4 = *st;
    let that = value_param(st, m, "that", FLAG_PARAM, applied(ioc, tys1(Ty::TypeParam(b))));
    let ghost s5 = *st;
    let tv = vec![b];
    let ghost tg = tv;
    st.set_tparams(m, tv);
    let ghost s6 = *st;
    let pv = vec![that];
    let ghost pg = pv;
    st.set_params(m, pv);
    let ghost s7 = *st;
    let c0 = vec![that];
    let ghost c0g = c0@;
    let pss = vec![c0];
    let ghost pssg = pss;
    st.set_paramss(m, pss);
    let ghost s8 = *st;
    let t0 = tys1(applied(ioc, tys1(Ty::TypeParam(b))));
    let ret = Ty::Array(Box::new(applied(tuple2, tys2(Ty::TypeParam(a), Ty::TypeParam(b)))));
    let ty = Ty::Method { paramss: vec![t0], ret: Box::new(ret) };
    let ghost tyg = ty;
    st.set_ty(m, ty);
    proof {
        lemma_grows_trans(sb, s3, s4);
        lemma_grows_trans(sb, s4, s5);
        lemma_grows_fresh_slot(sb, s5, s6, m, Symbol { tparams: tg, ..s5.sym(m) });
        lemma_grows_fresh_slot(sb, s6, s7, m, Symbol { params: pg, ..s6.sym(m) });
        lemma_grows_fresh_slot(sb, s7, s8, m, Symbol { paramss: pssg, ..s7.sym(m) });
        lemma_grows_fresh_slot(sb, s8, *st, m, Symbol { ty: tyg, ..s8.sym(m) });
        reveal_strlit("");
        assert(tg@ == seq![b] && pg@ == seq![that] && c0g == seq![that]);
        assert(st.syms@[b.0 as int].same_except_members(s4.syms@[b.0 as int]));
        assert(st.syms@[b.0 as int].members@ == s4.syms@[b.0 as int].members@);
        assert(st.syms@[that.0 as int].same_except_members(s5.syms@[that.0 as int]));
        assert(st.sym(m).members@ =~= seq![b, that]);
        assert(st.sym(m).jvm_name@ =~= ""@);
        assert forall|i: int| 0 <= i < l + 2 implies (#[trigger] st.syms@[i]).members@ == sb.syms@[i].members@ + (if i
            == aops.0 {
            seq![m]
        } else {
            seq![]
        }) by {
            assert(st.syms@[i].members@ == s3.syms@[i].members@);
            if i == aops.0 {
                assert(s3.syms@[i].members@ =~= sb.syms@[i].members@ + seq![m]);
            } else {
                assert(s3.syms@[i].members@ =~= sb.syms@[i].members@ + seq![]);
            }
        }
        assert(st.syms@[ioc.0 as int].same_except_members(sb.syms@[ioc.0 as int]));
        assert(st.syms@[slot(l, 1).0 as int].same_except_members(sb.syms@[slot(l, 1).0 as int]));
        assert(st.syms@[list.0 as int].same_except_members(sb.syms@[list.0 as int]));
        assert(sb.syms@[list.0 as int].same_except_parents(sa.syms@[list.0 as int]));
        assert(sa.syms@[list.0 as int].same_except_members(st0.syms@[list.0 as int]));
        assert forall|i: int| 0 <= i < l && i != list.0 implies (#[trigger] st.syms@[i]).same_except_members(st0.syms@[i]) by {
            assert(st.syms@[i].same_except_members(sb.syms@[i]));
            assert(sb.syms@[i] == sa.syms@[i]);
            assert(sa.syms@[i].same_except_members(st0.syms@[i]));
        }
        assert forall|i: int| 0 <= i < l implies (#[trigger] sb.syms@[i]).members@ == sa.syms@[i].members@ by {
            if i != list.0 {
                assert(sb.syms@[i] == sa.syms@[i]);
            }
        }
        let ps = st0.sym(list).parents@;
        assert(st.sym(list).parents@ == sb.sym(list).parents@);
        assert(sa.sym(list).parents@ == ps);
        if st0.sym(list).tparams@.len() > 0 {
            assert(st.sym(list).parents@.take(ps.len() as int) =~= ps);
        }
        assert(zip_installed(st0, *st, aops, tuple2, coll));
    }
}

} // verus!
