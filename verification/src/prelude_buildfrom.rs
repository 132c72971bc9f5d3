//! Finding a companion's module and module class, for the factory evidence
//! the collection companions are given.
use vstd::prelude::*;
use vstd::string::*;

use crate::prelude::{
    final_method_of, fresh_symbol, method, module_class_of, slot, spec_module_class_of, sym_is, type_param, value_param,
};
use crate::prelude_chainusing::is_type_param;
use crate::prelude_classtag::{declares_named, has_member_named};
use crate::symbols::{
    lemma_find_kept, lemma_find_valid, lemma_grows_fresh_slot, lemma_grows_trans, Intrinsic, SymKind, Symbol, SymbolId, SymbolTable, Ty,
    FLAG_FINAL, FLAG_IMPLICIT, FLAG_PARAM,
};

verus! {

/// Member `m` of a package is the module whose class is named `name`.
pub open spec fn is_module_named(st: SymbolTable, m: SymbolId, name: Seq<char>) -> bool {
    st.sym(m).kind == SymKind::Module && st.sym(m).name@ == name
}

/// The first of `ms` from `j` on that is a module named `name`.
pub open spec fn first_module_named(st: SymbolTable, ms: Seq<SymbolId>, name: Seq<char>, j: int) -> Option<SymbolId>
    decreases ms.len() - j,
{
    if j < 0 || j >= ms.len() {
        None
    } else if is_module_named(st, ms[j], name) {
        Some(ms[j])
    } else {
        first_module_named(st, ms, name, j + 1)
    }
}

/// The module beside module class `c`: the first member of `c`'s owner
/// that is a module of `c`'s name.
pub open spec fn spec_companion(st: SymbolTable, c: SymbolId) -> Option<SymbolId> {
    match st.sym(c).owner {
        None => None,
        Some(o) => first_module_named(st, st.sym(o).members@, st.sym(c).name@, 0),
    }
}

/// The `Module` symbol beside module class `module_cls`: the first member of
/// its owner that is a module and has its name.
pub fn companion_module_of(st: &SymbolTable, module_cls: SymbolId) -> (r: Option<SymbolId>)
    requires
        st.wf(),
        st.valid(module_cls),
    ensures
        r == spec_companion(*st, module_cls),
        st.sym(module_cls).owner is None ==> r is None,
        st.sym(module_cls).owner matches Some(o) ==> {
            let ms = st.sym(o).members@;
            let name = st.sym(module_cls).name@;
            match r {
                Some(m) => exists|j: int|
                    0 <= j < ms.len() && ms[j] == m && is_module_named(*st, m, name) && forall|i: int|
                        0 <= i < j ==> !is_module_named(*st, #[trigger] ms[i], name),
                None => forall|i: int| 0 <= i < ms.len() ==> !is_module_named(*st, #[trigger] ms[i], name),
            }
        },
{
    let owner = match st.get(module_cls).owner {
        Some(o) => o,
        None => {
            return None;
        },
    };
    let name = &st.get(module_cls).name;
    let members = &st.get(owner).members;
    let mut j: usize = 0;
    while j < members.len()
        invariant
            st.wf(),
            st.valid(owner),
            st.sym(module_cls).owner == Some(owner),
            members@ == st.sym(owner).members@,
            name@ == st.sym(module_cls).name@,
            j <= members@.len(),
            forall|i: int| 0 <= i < j ==> !is_module_named(*st, #[trigger] members@[i], name@),
            first_module_named(*st, members@, name@, 0) == first_module_named(*st, members@, name@, j as int),
        decreases members@.len() - j,
    {
        let m = members[j];
        proof {
            assert(st.valid(st.sym(owner).members@[j as int]));
        }
        let s = st.get(m);
        if s.kind == SymKind::Module && s.name == *name {
            return Some(m);
        }
        j += 1;
    }
    None
}

/// What `jvm` finds, or the class of the module it finds.
pub open spec fn spec_module_class_by_jvm(st: SymbolTable, jvm: Seq<char>) -> Option<SymbolId> {
    match st.spec_find_by_jvm(jvm) {
        Some(id) => if st.sym(id).kind == SymKind::Module {
            spec_module_class_of(st, id)
        } else {
            Some(id)
        },
        None => None,
    }
}

/// The module class carrying a companion's members, found by its JVM name:
/// what the name finds, or the class of the module it finds.
pub fn module_class_by_jvm(st: &SymbolTable, jvm: &str) -> (r: Option<SymbolId>)
    requires
        st.wf(),
    ensures
        r == spec_module_class_by_jvm(*st, jvm@),
        r matches Some(c) ==> st.valid(c),
{
    let id = match st.find_by_jvm(jvm) {
        Some(id) => id,
        None => {
            return None;
        },
    };
    if st.get(id).kind == SymKind::Module {
        module_class_of(st, id)
    } else {
        Some(id)
    }
}

/// `mutable.Map` when the table has it, with its two type parameters `K`
/// and `V`, and no member named `-` yet.
pub open spec fn removed_wanted(st: SymbolTable) -> Option<(SymbolId, SymbolId, SymbolId)> {
    match st.spec_find_by_jvm("scala/collection/mutable/Map"@) {
        Some(map) => if st.sym(map).tparams@.len() == 2 && !declares_named(st, map, "-"@) {
            Some((map, st.sym(map).tparams@[0], st.sym(map).tparams@[1]))
        } else {
            None
        },
        None => None,
    }
}

/// What `add_mutable_map_removed` does to table `o`, giving `n`: nothing,
/// unless `removed_wanted` finds `mutable.Map` lacking `-`; then it gains
/// the method `-(key: K): Map[K, V]` in a fresh slot.
pub open spec fn mutable_map_removed(o: SymbolTable, n: SymbolTable) -> bool {
    &&& removed_wanted(o) is None ==> n == o
    &&& removed_wanted(o) matches Some((map, k, v)) ==> {
        let id = SymbolId(o.syms@.len() as u32);
        let s = n.sym(id);
        &&& n.grows_from(o)
        &&& n.syms@.len() == o.syms@.len() + 1
        &&& n.sym(map).members@ == o.sym(map).members@.push(id)
        &&& final_method_of(s, map, "-"@)
        &&& (s.ty matches Ty::Method { paramss, ret } && paramss@.len() == 1 && paramss@[0]@ == seq![Ty::TypeParam(k)]
            && (*ret matches Ty::Class { sym, args } && sym == map && args@ == seq![Ty::TypeParam(k), Ty::TypeParam(v)]))
    }
}

/// `mutable.MapOps.-(key: K): Map[K, V]`, declared on `mutable.Map` when it
/// is in the table with its two type parameters and has no `-` yet.
pub fn add_mutable_map_removed(st: &mut SymbolTable)
    requires
        old(st).wf(),
        old(st).syms@.len() + 1 < u32::MAX,
    ensures
        final(st).wf(),
        mutable_map_removed(*old(st), *final(st)),
{
    let map = match st.find_by_jvm("scala/collection/mutable/Map") {
        Some(m) => m,
        None => {
            return;
        },
    };
    if st.get(map).tparams.len() != 2 {
        return;
    }
    if has_member_named(st, map, "-") {
        return;
    }
    let k = st.get(map).tparams[0];
    let v = st.get(map).tparams[1];
    let ghost st0 = *st;
    assert(removed_wanted(st0) == Some((map, k, v)));
    let params = vec![Ty::TypeParam(k)];
    let ghost pg = params@;
    let args = vec![Ty::TypeParam(k), Ty::TypeParam(v)];
    let ghost ag = args@;
    let id = method(st, map, "-", params, Ty::Class { sym: map, args }, Intrinsic::Plain);
    proof {
        match st.sym(id).ty {
            Ty::Method { paramss, .. } => {
                assert(paramss@.map_values(|c: Vec<Ty>| c@) == seq![pg]);
                assert(paramss@.map_values(|c: Vec<Ty>| c@)[0] == paramss@[0]@);
            },
            _ => {},
        }
        let n = *st;
        assert(pg == seq![Ty::TypeParam(k)]);
        assert(ag == seq![Ty::TypeParam(k), Ty::TypeParam(v)]);
        assert(id == SymbolId(st0.syms@.len() as u32));
        assert(n.grows_from(st0));
        assert(n.sym(map).members@ == st0.sym(map).members@.push(id));
        assert(final_method_of(n.sym(id), map, "-"@));
    }
}

/// Declaring `mutable.Map`'s `-` is done once: after it, the table wants
/// no further `-`.
pub proof fn lemma_mutable_map_removed_once(o: SymbolTable, n: SymbolTable)
    requires
        o.wf(),
        mutable_map_removed(o, n),
    ensures
        removed_wanted(n) is None,
{
    if let Some((map, k, v)) = removed_wanted(o) {
        lemma_find_kept(o, n, "scala/collection/mutable/Map"@, 0);
        let id = SymbolId(o.syms@.len() as u32);
        let ms = n.sym(map).members@;
        assert(ms[ms.len() - 1] == id);
        assert(n.sym(ms[ms.len() - 1]).name@ == "-"@);
        assert(declares_named(n, map, "-"@));
    }
}

/// The first module of a name is found again in a longer list whose extra
/// entries are not such modules, in a table where the old entries are what
/// they were.
proof fn lemma_first_module_prefix(a: SymbolTable, b: SymbolTable, ms_a: Seq<SymbolId>, ms_b: Seq<SymbolId>, name: Seq<char>, j: int)
    requires
        0 <= j,
        ms_a.is_prefix_of(ms_b),
        forall|k: int| 0 <= k < ms_a.len() ==> is_module_named(a, #[trigger] ms_a[k], name) == is_module_named(b, ms_a[k], name),
        forall|k: int| ms_a.len() <= k < ms_b.len() ==> !is_module_named(b, #[trigger] ms_b[k], name),
    ensures
        first_module_named(a, ms_a, name, j) == first_module_named(b, ms_b, name, j),
    decreases ms_b.len() - j,
{
    if j < ms_b.len() {
        lemma_first_module_prefix(a, b, ms_a, ms_b, name, j + 1);
        if j < ms_a.len() {
            assert(ms_a[j] == ms_b[j]);
        } else {
            assert(!is_module_named(b, ms_b[j], name));
        }
    }
}

/// The companion of `c` is the same in a grown table whose additions to the
/// owner's members are not modules.
proof fn lemma_companion_kept(o: SymbolTable, n: SymbolTable, c: SymbolId)
    requires
        o.wf(),
        o.valid(c),
        n.grows_from(o),
        o.sym(c).owner matches Some(w) ==> forall|k: int|
            o.sym(w).members@.len() <= k < n.sym(w).members@.len() ==> n.sym(#[trigger] n.sym(w).members@[k]).kind != SymKind::Module,
    ensures
        spec_companion(n, c) == spec_companion(o, c),
{
    assert(n.syms@[c.0 as int].same_except_members(o.syms@[c.0 as int]));
    if let Some(w) = o.sym(c).owner {
        let ms_a = o.sym(w).members@;
        let ms_b = n.sym(w).members@;
        let name = o.sym(c).name@;
        assert(n.syms@[w.0 as int].same_except_members(o.syms@[w.0 as int]));
        assert forall|k: int| 0 <= k < ms_a.len() implies is_module_named(o, #[trigger] ms_a[k], name) == is_module_named(n, ms_a[k], name) by {
            assert(o.valid(ms_a[k]));
            assert(n.syms@[ms_a[k].0 as int].same_except_members(o.syms@[ms_a[k].0 as int]));
        }
        lemma_first_module_prefix(o, n, ms_a, ms_b, name, 0);
    }
}

/// The name of the evidence a companion gets: `mapFactory` for a map,
/// `iterableFactory` otherwise.
pub open spec fn evidence_name(map_like: bool) -> Seq<char> {
    if map_like {
        "mapFactory"@
    } else {
        "iterableFactory"@
    }
}

/// `Factory` and `Tuple2`, as far as the table has them, when evidence is
/// to be declared on `c`: `Factory` is present, `c` has no member of the
/// evidence's name yet, and a map's evidence has its `Tuple2`.
pub open spec fn evidence_wanted(st: SymbolTable, c: SymbolId, map_like: bool) -> Option<(SymbolId, Option<SymbolId>)> {
    match st.spec_find_by_jvm("scala/collection/Factory"@) {
        None => None,
        Some(f) => if declares_named(st, c, evidence_name(map_like)) {
            None
        } else {
            let t2 = st.spec_find_by_jvm("scala/Tuple2"@);
            if map_like && t2 is None {
                None
            } else {
                Some((f, t2))
            }
        },
    }
}

/// The type parameters `ids`, as types.
pub open spec fn tparam_tys(ids: Seq<SymbolId>) -> Seq<Ty> {
    ids.map_values(|i: SymbolId| Ty::TypeParam(i))
}

/// The element type of a factory over `elems`: `Tuple2[K, V]` for a map,
/// `A` otherwise.
pub open spec fn elem_type_ok(t: Ty, elems: Seq<SymbolId>, map_like: bool, t2: Option<SymbolId>) -> bool {
    if map_like {
        t matches Ty::Class { sym, args } && Some(sym) == t2 && args@ == tparam_tys(elems)
    } else {
        elems.len() == 1 && t == Ty::TypeParam(elems[0])
    }
}

/// `Factory[elem, cls[elems]]`.
pub open spec fn factory_type_ok(t: Ty, factory: SymbolId, cls: SymbolId, elems: Seq<SymbolId>, map_like: bool, t2: Option<SymbolId>) -> bool {
    t matches Ty::Class { sym, args } && sym == factory && args@.len() == 2 && elem_type_ok(args@[0], elems, map_like, t2) && (
    args@[1] matches Ty::Class { sym: c2, args: a2 } && c2 == cls && a2@ == tparam_tys(elems))
}

/// The slots of the element type parameters, after the method's slot `l`.
pub open spec fn elem_slots(l: int, map_like: bool) -> Seq<SymbolId> {
    if map_like {
        seq![slot(l, 1), slot(l, 2)]
    } else {
        seq![slot(l, 1)]
    }
}

/// The names of the element type parameters.
pub open spec fn elem_names(map_like: bool) -> Seq<Seq<char>> {
    if map_like {
        seq!["K"@, "V"@]
    } else {
        seq!["A"@]
    }
}

/// What `add_factory_evidence` does to `o` for the module class `c` of the
/// collection `cls`, giving `n`: nothing unless `evidence_wanted`; then the
/// implicit `iterableFactory[A]: Factory[A, cls[A]]` (or
/// `mapFactory[K, V]: Factory[(K, V), cls[K, V]]`) is added to `c`, and the
/// module beside `c` is given `c`'s members.
pub open spec fn factory_evidence_added(o: SymbolTable, n: SymbolTable, c: SymbolId, cls: SymbolId, map_like: bool) -> bool {
    match evidence_wanted(o, c, map_like) {
        None => n == o,
        Some((factory, t2)) => {
            let l = o.syms@.len() as int;
            let m = slot(l, 0);
            let elems = elem_slots(l, map_like);
            let s = n.sym(m);
            let companion = spec_companion(o, c);
            &&& n.syms@.len() == l + 1 + elems.len()
            &&& n.same_well_known(o)
            &&& n.scope == o.scope
            &&& forall|i: int| 0 <= i < l ==> (#[trigger] n.syms@[i]).same_except_members(o.syms@[i])
            &&& forall|i: int| 0 <= i < l && i != c.0 && companion != Some(SymbolId(i as u32)) ==> (#[trigger] n.syms@[i]).members@
                == o.syms@[i].members@
            &&& n.sym(c).members@ == o.sym(c).members@.push(m)
            &&& companion matches Some(cm) ==> n.sym(cm).members@ == n.sym(c).members@
            &&& sym_is(s, evidence_name(map_like), SymKind::Method, c, FLAG_FINAL | FLAG_IMPLICIT, ""@)
            &&& s.intrinsic == Intrinsic::Plain
            &&& s.tparams@ == elems
            &&& s.members@ == elems
            &&& (s.ty matches Ty::Method { paramss, ret } && paramss@.len() == 0 && factory_type_ok(*ret, factory, cls, elems, map_like, t2))
            &&& forall|k: int| 0 <= k < elems.len() ==> is_type_param(n.sym(#[trigger] elems[k]), elems[k], m, elem_names(map_like)[k])
        },
    }
}

/// `trait IterableFactory[+CC[_]] { implicit def iterableFactory[A]:
/// Factory[A, CC[A]] }` (or `MapFactory`'s `mapFactory[K, V]`), as the
/// module class `module_cls` of the collection `cls` sees it.
#[verifier::spinoff_prover]
#[verifier::rlimit(60)]
pub fn add_factory_evidence(st: &mut SymbolTable, module_cls: SymbolId, cls: SymbolId, map_like: bool)
    requires
        old(st).wf(),
        old(st).valid(module_cls),
        old(st).syms@.len() + 3 < u32::MAX,
    ensures
        final(st).wf(),
        factory_evidence_added(*old(st), *final(st), module_cls, cls, map_like),
{
    let factory = match st.find_by_jvm("scala/collection/Factory") {
        Some(f) => f,
        None => {
            return;
        },
    };
    let name = if map_like {
        "mapFactory"
    } else {
        "iterableFactory"
    };
    if has_member_named(st, module_cls, name) {
        return;
    }
    let tuple2 = st.find_by_jvm("scala/Tuple2");
    if map_like && tuple2.is_none() {
        return;
    }
    let ghost st0 = *st;
    let ghost l = st0.syms@.len() as int;
    assert(evidence_wanted(st0, module_cls, map_like) == Some((factory, tuple2)));
    let m = method(st, module_cls, name, Vec::new(), Ty::Unit, Intrinsic::Plain);
    let ghost s1 = *st;
    let fl = st.get(m).flags | FLAG_IMPLICIT;
    st.set_flags(m, fl);
    let ghost s2 = *st;
    proof {
        lemma_grows_fresh_slot(st0, s1, s2, m, Symbol { flags: fl, ..s1.sym(m) });
    }
    let elems: Vec<SymbolId> = if map_like {
        let k = type_param(st, m, "K");
        let v = type_param(st, m, "V");
        proof {
            assert(forall|i: int| 0 <= i < s2.syms@.len() && i != m.0 ==> (#[trigger] st.syms@[i]).members@ == s2.syms@[i].members@);
        }
        vec![k, v]
    } else {
        let a = type_param(st, m, "A");
        vec![a]
    };
    let ghost s3 = *st;
    let ghost eg = elems@;
    assert(eg == elem_slots(l, map_like));
    let tps = elems.clone();
    let ghost tpg = tps;
    st.set_tparams(m, tps);
    let ghost s4 = *st;
    proof {
        lemma_grows_trans(st0, s2, s3);
        lemma_grows_fresh_slot(st0, s3, s4, m, Symbol { tparams: tpg, ..s3.sym(m) });
    }
    // the element types, written once for the element and once for the
    // collection built
    let mut et1: Vec<Ty> = Vec::new();
    let mut et2: Vec<Ty> = Vec::new();
    let mut j: usize = 0;
    while j < elems.len()
        invariant
            j <= elems@.len(),
            et1@ == tparam_tys(elems@.take(j as int)),
            et2@ == et1@,
        decreases elems@.len() - j,
    {
        et1.push(Ty::TypeParam(elems[j]));
        et2.push(Ty::TypeParam(elems[j]));
        proof {
            assert(elems@.take(j + 1) =~= elems@.take(j as int).push(elems@[j as int]));
            assert(tparam_tys(elems@.take(j + 1)) =~= tparam_tys(elems@.take(j as int)).push(Ty::TypeParam(elems@[j as int])));
        }
        j += 1;
    }
    proof {
        assert(elems@.take(elems@.len() as int) =~= elems@);
    }
    let ghost etg = et1@;
    let elem = if map_like {
        Ty::Class { sym: tuple2.unwrap(), args: et1 }
    } else {
        Ty::TypeParam(elems[0])
    };
    let ghost elem_g = elem;
    let built = Ty::Class { sym: cls, args: et2 };
    let ghost built_g = built;
    let fargs = vec![elem, built];
    let ghost fag = fargs@;
    let ty = Ty::Method { paramss: Vec::new(), ret: Box::new(Ty::Class { sym: factory, args: fargs }) };
    let ghost tyg = ty;
    st.set_ty(m, ty);
    let ghost s5 = *st;
    proof {
        lemma_grows_fresh_slot(st0, s4, s5, m, Symbol { ty: tyg, ..s4.sym(m) });
        assert(fag == seq![elem_g, built_g]);
        assert(elem_type_ok(elem_g, eg, map_like, tuple2));
        match tyg {
            Ty::Method { paramss, ret } => {
                assert(factory_type_ok(*ret, factory, cls, eg, map_like, tuple2));
            },
            _ => {},
        }
    }
    let mems = st.get(module_cls).members.clone();
    let companion = companion_module_of(st, module_cls);
    proof {
        assert forall|k: int|
            #![trigger s5.sym(s5.sym(st0.sym(module_cls).owner->0).members@[k])]
            st0.sym(module_cls).owner is Some && st0.sym(st0.sym(module_cls).owner->0).members@.len() <= k
                < s5.sym(st0.sym(module_cls).owner->0).members@.len() implies s5.sym(
            s5.sym(st0.sym(module_cls).owner->0).members@[k],
        ).kind != SymKind::Module by {
            let w = st0.sym(module_cls).owner->0;
            assert(s5.syms@[w.0 as int].same_except_members(st0.syms@[w.0 as int]));
            if w == module_cls {
                assert(s5.sym(w).members@ == st0.sym(w).members@.push(m));
            } else {
                assert(s5.sym(w).members@ == st0.sym(w).members@);
            }
        }
        lemma_companion_kept(st0, s5, module_cls);
    }
    match companion {
        Some(module) => {
            st.set_members(module, mems);
        },
        None => {},
    }
    proof {
        reveal_strlit("");
        assert(m == slot(l, 0));
        assert(st.syms@[m.0 as int].same_except_members(s5.syms@[m.0 as int]));
        assert forall|k: int| 0 <= k < eg.len() implies is_type_param(
            st.sym(#[trigger] eg[k]),
            eg[k],
            m,
            elem_names(map_like)[k],
        ) by {
            assert(s3.syms@[eg[k].0 as int] == s4.syms@[eg[k].0 as int]);
            assert(s5.syms@[eg[k].0 as int] == s4.syms@[eg[k].0 as int]);
            assert(st.syms@[eg[k].0 as int].same_except_members(s5.syms@[eg[k].0 as int]));
            assert(is_type_param(s3.sym(eg[k]), eg[k], m, elem_names(map_like)[k]));
        }
        let n = *st;
        let companion_s = spec_companion(st0, module_cls);
        assert(n.syms@.len() == l + 1 + eg.len());
        assert forall|i: int| 0 <= i < l implies (#[trigger] n.syms@[i]).same_except_members(st0.syms@[i]) by {
            assert(n.syms@[i].same_except_members(s5.syms@[i]));
            assert(s5.syms@[i].same_except_members(st0.syms@[i]));
        }
        assert(name@ == evidence_name(map_like));
        assert(s1.sym(m).flags == FLAG_FINAL);
        assert forall|i: int| 0 <= i < l && i != module_cls.0 && companion_s != Some(SymbolId(i as u32)) implies (#[trigger] n.syms@[i]).members@
                == st0.syms@[i].members@ by {
            assert(s1.syms@[i].members@ == st0.syms@[i].members@);
            assert(s2.syms@[i] == s1.syms@[i]);
            assert(s3.syms@[i].members@ == s2.syms@[i].members@);
            assert(s4.syms@[i] == s3.syms@[i]);
            assert(s5.syms@[i] == s4.syms@[i]);
        }
        assert(s2.sym(m).flags == fl);
        assert(s3.syms@[m.0 as int].same_except_members(s2.syms@[m.0 as int]));
        assert(s4.sym(m).flags == fl);
        assert(n.sym(m).flags == FLAG_FINAL | FLAG_IMPLICIT);
        assert(n.sym(m).jvm_name@ == ""@);
        assert(n.sym(m).name@ == evidence_name(map_like));
        assert(n.sym(module_cls).members@ == st0.sym(module_cls).members@.push(m));
        assert(companion_s matches Some(cm) ==> n.sym(cm).members@ == n.sym(module_cls).members@);
        assert(sym_is(n.sym(m), evidence_name(map_like), SymKind::Method, module_cls, FLAG_FINAL | FLAG_IMPLICIT, ""@));
        assert(n.sym(m).tparams@ == eg);
        assert(n.sym(m).members@ == eg);
    }
}

/// A companion is given its factory evidence once: after
/// `add_factory_evidence`, none is wanted on it any more.
pub proof fn lemma_factory_evidence_once(o: SymbolTable, n: SymbolTable, c: SymbolId, cls: SymbolId, map_like: bool)
    requires
        factory_evidence_added(o, n, c, cls, map_like),
    ensures
        evidence_wanted(n, c, map_like) is None,
{
    if let Some((factory, t2)) = evidence_wanted(o, c, map_like) {
        let m = slot(o.syms@.len() as int, 0);
        let ms = n.sym(c).members@;
        assert(ms[ms.len() - 1] == m);
        assert(n.sym(ms[ms.len() - 1]).name@ == evidence_name(map_like));
        assert(declares_named(n, c, evidence_name(map_like)));
    }
}

/// `Factory[cls]`, the edge `object X extends IterableFactory[X]` stands
/// for: the factory trait applied to the collection's bare class type.
pub open spec fn is_factory_edge(t: Ty, factory: SymbolId, cls: SymbolId) -> bool {
    t matches Ty::Class { sym, args } && sym == factory && args@.len() == 1 && (args@[0] matches Ty::Class { sym: c, args: a }
        && c == cls && a@.len() == 0)
}

/// Whether `t` is that edge.
fn factory_edge_at(t: &Ty, factory: SymbolId, cls: SymbolId) -> (r: bool)
    ensures
        r == is_factory_edge(*t, factory, cls),
{
    match t {
        Ty::Class { sym, args } => {
            if *sym != factory || args.len() != 1 {
                return false;
            }
            match &args[0] {
                Ty::Class { sym: c, args: a } => *c == cls && a.len() == 0,
                _ => false,
            }
        },
        _ => false,
    }
}

/// `p` is `o` with the factory edge among the parents of `mc`: as it was if
/// it had one, else with it appended.
pub open spec fn parent_linked(o: SymbolTable, p: SymbolTable, mc: SymbolId, factory: SymbolId, cls: SymbolId) -> bool {
    let ps = o.sym(mc).parents@;
    if exists|k: int| 0 <= k < ps.len() && is_factory_edge(#[trigger] ps[k], factory, cls) {
        p == o
    } else {
        &&& p.syms@.len() == o.syms@.len()
        &&& p.scope == o.scope
        &&& p.same_well_known(o)
        &&& forall|i: int| 0 <= i < o.syms@.len() && i != mc.0 ==> #[trigger] p.syms@[i] == o.syms@[i]
        &&& p.sym(mc).same_except_parents(o.sym(mc))
        &&& p.sym(mc).parents@.len() == ps.len() + 1
        &&& p.sym(mc).parents@.take(ps.len() as int) == ps
        &&& is_factory_edge(p.sym(mc).parents@.last(), factory, cls)
    }
}

/// What `link` does to `o`, giving `n`: when the companion's module class
/// and the collection class are both in the table, the companion extends
/// `factory[cls]` (once) and gets its factory evidence; else nothing.
pub open spec fn linked(o: SymbolTable, n: SymbolTable, factory: SymbolId, module_jvm: Seq<char>, class_jvm: Seq<char>, map_like: bool) -> bool {
    match (spec_module_class_by_jvm(o, module_jvm), o.spec_find_by_jvm(class_jvm)) {
        (Some(mc), Some(cls)) => exists|p: SymbolTable|
            p.wf() && parent_linked(o, p, mc, factory, cls) && #[trigger] factory_evidence_added(p, n, mc, cls, map_like),
        _ => n == o,
    }
}

/// `object X extends IterableFactory[X]` for the companion `module_jvm` of
/// the collection `class_jvm`, and the `Factory` evidence the factory trait
/// defines on it.
pub fn link(st: &mut SymbolTable, factory: SymbolId, module_jvm: &str, class_jvm: &str, map_like: bool)
    requires
        old(st).wf(),
        old(st).valid(factory),
        old(st).syms@.len() + 3 < u32::MAX,
    ensures
        final(st).wf(),
        old(st).syms@.len() <= final(st).syms@.len() <= old(st).syms@.len() + 3,
        linked(*old(st), *final(st), factory, module_jvm@, class_jvm@, map_like),
{
    let ghost st0 = *st;
    let module_cls = match module_class_by_jvm(st, module_jvm) {
        Some(c) => c,
        None => {
            return;
        },
    };
    let cls = match st.find_by_jvm(class_jvm) {
        Some(c) => c,
        None => {
            return;
        },
    };
    let ps = &st.get(module_cls).parents;
    let mut present = false;
    let mut k: usize = 0;
    while k < ps.len()
        invariant
            st.wf(),
            st.valid(module_cls),
            ps@ == st.sym(module_cls).parents@,
            k <= ps@.len(),
            present == exists|j: int| 0 <= j < k && is_factory_edge(#[trigger] ps@[j], factory, cls),
        decreases ps@.len() - k,
    {
        if factory_edge_at(&ps[k], factory, cls) {
            present = true;
        }
        k += 1;
    }
    if !present {
        let edge_args = vec![Ty::Class { sym: cls, args: Vec::new() }];
        let ghost eag = edge_args@;
        let edge = Ty::Class { sym: factory, args: edge_args };
        let ghost edge_g = edge;
        proof {
            assert(eag.len() == 1);
            assert(is_factory_edge(edge_g, factory, cls));
        }
        st.push_parent(module_cls, edge);
        proof {
            assert(st.sym(module_cls).parents@.take(st0.sym(module_cls).parents@.len() as int) =~= st0.sym(module_cls).parents@);
        }
    }
    let ghost p = *st;
    add_factory_evidence(st, module_cls, cls, map_like);
    proof {
        assert(parent_linked(st0, p, module_cls, factory, cls));
        assert(factory_evidence_added(p, *st, module_cls, cls, map_like));
    }
}

/// What a JVM name finds is found again in a table whose old slots keep
/// their kinds and JVM names.
proof fn lemma_find_same_kinds(a: SymbolTable, b: SymbolTable, jvm: Seq<char>, i: int)
    requires
        b.syms@.len() >= a.syms@.len(),
        b.same_well_known(a),
        forall|q: int| 0 <= q < a.syms@.len() ==> (#[trigger] b.syms@[q]).kind == a.syms@[q].kind && b.syms@[q].jvm_name
            == a.syms@[q].jvm_name,
    ensures
        a.find_jvm_from(jvm, i) matches Some(id) ==> b.find_jvm_from(jvm, i) == Some(id),
    decreases a.syms@.len() - i,
{
    if 0 <= i < a.syms@.len() {
        assert(a.class_with_jvm(i, jvm) == b.class_with_jvm(i, jvm));
        lemma_find_same_kinds(a, b, jvm, i + 1);
    }
}

/// A companion is linked to its factory once: after `link`, the companion
/// extends the factory edge and wants no further evidence, so a second
/// `link` adds no parent and no member.
pub proof fn lemma_link_once(o: SymbolTable, n: SymbolTable, factory: SymbolId, module_jvm: Seq<char>, class_jvm: Seq<char>, map_like: bool)
    requires
        o.wf(),
        linked(o, n, factory, module_jvm, class_jvm, map_like),
    ensures
        (spec_module_class_by_jvm(n, module_jvm), n.spec_find_by_jvm(class_jvm)) matches (Some(mc), Some(cls)) ==> {
            &&& exists|k: int| 0 <= k < n.sym(mc).parents@.len() && is_factory_edge(#[trigger] n.sym(mc).parents@[k], factory, cls)
            &&& evidence_wanted(n, mc, map_like) is None
        },
{
    if let (Some(mc), Some(cls)) = (spec_module_class_by_jvm(o, module_jvm), o.spec_find_by_jvm(class_jvm)) {
        let p = choose|p: SymbolTable| p.wf() && parent_linked(o, p, mc, factory, cls) && #[trigger] factory_evidence_added(p, n, mc, cls, map_like);
        lemma_factory_evidence_once(p, n, mc, cls, map_like);
        // the lookups find what they found in `o`
        assert forall|q: int| 0 <= q < o.syms@.len() implies (#[trigger] p.syms@[q]).kind == o.syms@[q].kind && p.syms@[q].jvm_name
            == o.syms@[q].jvm_name by {
            if q != mc.0 {
                assert(p.syms@[q] == o.syms@[q]);
            }
        }
        assert forall|q: int| 0 <= q < o.syms@.len() implies (#[trigger] n.syms@[q]).kind == o.syms@[q].kind && n.syms@[q].jvm_name
            == o.syms@[q].jvm_name by {
            if evidence_wanted(p, mc, map_like) is Some {
                assert(n.syms@[q].same_except_members(p.syms@[q]));
            }
            assert(p.syms@[q].kind == o.syms@[q].kind);
        }
        lemma_find_same_kinds(o, n, module_jvm, 0);
        lemma_find_same_kinds(o, n, class_jvm, 0);
        let id = o.spec_find_by_jvm(module_jvm)->0;
        lemma_find_valid(o, module_jvm, 0);
        assert(n.syms@[id.0 as int].kind == o.syms@[id.0 as int].kind && n.syms@[id.0 as int].ty == o.syms@[id.0 as int].ty) by {
            if evidence_wanted(p, mc, map_like) is Some {
                assert(n.syms@[id.0 as int].same_except_members(p.syms@[id.0 as int]));
            }
            if id != mc {
                assert(p.syms@[id.0 as int] == o.syms@[id.0 as int]);
            }
        }
        assert(spec_module_class_by_jvm(n, module_jvm) == Some(mc));
        // the edge is among `mc`'s parents in `p`, and `n` keeps them
        let ps = p.sym(mc).parents@;
        let k = if exists|k: int| 0 <= k < o.sym(mc).parents@.len() && is_factory_edge(#[trigger] o.sym(mc).parents@[k], factory, cls) {
            choose|k: int| 0 <= k < o.sym(mc).parents@.len() && is_factory_edge(#[trigger] o.sym(mc).parents@[k], factory, cls)
        } else {
            ps.len() - 1
        };
        assert(is_factory_edge(ps[k], factory, cls));
        if evidence_wanted(p, mc, map_like) is Some {
            assert(n.syms@[mc.0 as int].same_except_members(p.syms@[mc.0 as int]));
        }
        assert(n.sym(mc).parents@ == ps);
        assert(is_factory_edge(n.sym(mc).parents@[k], factory, cls));
    }
}

/// How many of `ps` are the edge `factory[cls]`.
pub open spec fn edge_count(ps: Seq<Ty>, factory: SymbolId, cls: SymbolId) -> nat
    decreases ps.len(),
{
    if ps.len() == 0 {
        0
    } else {
        edge_count(ps.drop_last(), factory, cls) + if is_factory_edge(ps.last(), factory, cls) {
            1nat
        } else {
            0nat
        }
    }
}

proof fn lemma_edge_count_zero(ps: Seq<Ty>, factory: SymbolId, cls: SymbolId)
    ensures
        (edge_count(ps, factory, cls) == 0) <==> !(exists|k: int| 0 <= k < ps.len() && is_factory_edge(#[trigger] ps[k], factory, cls)),
    decreases ps.len(),
{
    if ps.len() > 0 {
        let q = ps.drop_last();
        lemma_edge_count_zero(q, factory, cls);
        if exists|k: int| 0 <= k < ps.len() && is_factory_edge(#[trigger] ps[k], factory, cls) {
            let k = choose|k: int| 0 <= k < ps.len() && is_factory_edge(#[trigger] ps[k], factory, cls);
            if k < ps.len() - 1 {
                assert(is_factory_edge(q[k], factory, cls));
            }
        } else {
            assert forall|k: int| 0 <= k < q.len() implies !is_factory_edge(#[trigger] q[k], factory, cls) by {
                assert(q[k] == ps[k]);
            }
        }
    }
}

/// `link` never duplicates the edge: when the companion's module class and
/// the collection class are both in the table, the class extends
/// `factory[cls]` as many times as before, or once where it did not before.
pub proof fn lemma_link_never_duplicates(o: SymbolTable, n: SymbolTable, factory: SymbolId, module_jvm: Seq<char>, class_jvm: Seq<char>, map_like: bool)
    requires
        o.wf(),
        linked(o, n, factory, module_jvm, class_jvm, map_like),
    ensures
        (spec_module_class_by_jvm(o, module_jvm), o.spec_find_by_jvm(class_jvm)) matches (Some(mc), Some(cls)) ==> {
            let before = edge_count(o.sym(mc).parents@, factory, cls);
            edge_count(n.sym(mc).parents@, factory, cls) == if before == 0 {
                1
            } else {
                before
            }
        },
{
    if let (Some(mc), Some(cls)) = (spec_module_class_by_jvm(o, module_jvm), o.spec_find_by_jvm(class_jvm)) {
        let p = choose|p: SymbolTable| p.wf() && parent_linked(o, p, mc, factory, cls) && #[trigger] factory_evidence_added(p, n, mc, cls, map_like);
        let ps = o.sym(mc).parents@;
        lemma_edge_count_zero(ps, factory, cls);
        let id = o.spec_find_by_jvm(module_jvm)->0;
        lemma_find_valid(o, module_jvm, 0);
        assert(o.valid(mc));
        if evidence_wanted(p, mc, map_like) is Some {
            assert(n.syms@[mc.0 as int].same_except_members(p.syms@[mc.0 as int]));
        }
        assert(n.sym(mc).parents@ == p.sym(mc).parents@);
        if !(exists|k: int| 0 <= k < ps.len() && is_factory_edge(#[trigger] ps[k], factory, cls)) {
            let qs = p.sym(mc).parents@;
            assert(qs.drop_last() =~= ps);
        }
    }
}

/// `owner`'s members without those named `toFactory`, in order.
pub open spec fn without_to_factory(st: SymbolTable, ms: Seq<SymbolId>) -> Seq<SymbolId> {
    ms.filter(|m: SymbolId| st.sym(m).name@ != "toFactory"@)
}

/// `f` is `o` with every member named `toFactory` dropped from `owner`.
pub open spec fn to_factory_filtered(o: SymbolTable, f: SymbolTable, owner: SymbolId) -> bool {
    &&& f.syms@.len() == o.syms@.len()
    &&& f.scope == o.scope
    &&& f.same_well_known(o)
    &&& forall|i: int| 0 <= i < o.syms@.len() ==> (#[trigger] f.syms@[i]).same_except_members(o.syms@[i])
    &&& forall|i: int| 0 <= i < o.syms@.len() && i != owner.0 ==> (#[trigger] f.syms@[i]).members@ == o.syms@[i].members@
    &&& f.sym(owner).members@ == without_to_factory(o, o.sym(owner).members@)
}

/// How many type parameters the factory's type constructor takes, and how
/// many element type parameters `toFactory` has: two for a map, else one.
pub open spec fn cc_arity(map_like: bool) -> int {
    if map_like {
        2
    } else {
        1
    }
}

/// The names of the type constructor's own parameters.
pub open spec fn x_names(map_like: bool) -> Seq<Seq<char>> {
    if map_like {
        seq!["X0"@, "X1"@]
    } else {
        seq!["X0"@]
    }
}

/// `fac[CC]`, the type of `toFactory`'s parameter.
pub open spec fn is_factory_param(t: Ty, fac: SymbolId, cc: SymbolId) -> bool {
    t matches Ty::Class { sym, args } && sym == fac && args@ == seq![Ty::TypeParam(cc)]
}

/// `Factory[elem, CC[elems]]`, the result of `toFactory`.
pub open spec fn to_factory_result_ok(t: Ty, factory: SymbolId, cc: SymbolId, elems: Seq<SymbolId>, map_like: bool, t2: Option<SymbolId>) -> bool {
    t matches Ty::Class { sym, args } && sym == factory && args@.len() == 2 && elem_type_ok(args@[0], elems, map_like, t2) && (
    args@[1] matches Ty::Applied { ctor, args: a2 } && *ctor == Ty::TypeParam(cc) && a2@ == tparam_tys(elems))
}

/// What declaring `toFactory` on `owner` does to `f`, giving `n`:
/// `implicit def toFactory[A, CC[X0]](factory: fac[CC]): Factory[A, CC[A]]`
/// (for a map `[K, V, CC[X0, X1]]` and `Factory[(K, V), CC[K, V]]`), in
/// fresh slots from `f`'s end: the method, `CC`, its parameters, the
/// element parameters and the value parameter; the module beside `owner`
/// gets `owner`'s members.
pub open spec fn to_factory_declared(f: SymbolTable, n: SymbolTable, owner: SymbolId, fac: SymbolId, factory: SymbolId, t2: Option<SymbolId>, map_like: bool) -> bool {
    let l = f.syms@.len() as int;
    let a = cc_arity(map_like);
    let m = slot(l, 0);
    let cc = slot(l, 1);
    let xs = Seq::new(a as nat, |i: int| slot(l, 2 + i));
    let elems = Seq::new(a as nat, |i: int| slot(l, 2 + a + i));
    let p = slot(l, 2 + 2 * a);
    let companion = spec_companion(f, owner);
    let s = n.sym(m);
    &&& n.syms@.len() == l + 3 + 2 * a
    &&& n.same_well_known(f)
    &&& n.scope == f.scope
    &&& forall|i: int| 0 <= i < l ==> (#[trigger] n.syms@[i]).same_except_members(f.syms@[i])
    &&& forall|i: int| 0 <= i < l && i != owner.0 && companion != Some(SymbolId(i as u32)) ==> (#[trigger] n.syms@[i]).members@
        == f.syms@[i].members@
    &&& n.sym(owner).members@ == f.sym(owner).members@.push(m)
    &&& companion matches Some(cm) ==> n.sym(cm).members@ == n.sym(owner).members@
    &&& sym_is(s, "toFactory"@, SymKind::Method, owner, FLAG_FINAL | FLAG_IMPLICIT, ""@)
    &&& s.intrinsic == Intrinsic::Plain
    &&& s.tparams@ == elems.push(cc)
    &&& s.members@ == seq![cc] + elems + seq![p]
    &&& s.params@ == seq![p]
    &&& s.paramss@.len() == 1 && s.paramss@[0]@ == seq![p]
    &&& (s.ty matches Ty::Method { paramss, ret } && paramss@.len() == 1 && paramss@[0]@.len() == 1 && is_factory_param(
        paramss@[0]@[0],
        fac,
        cc,
    ) && to_factory_result_ok(*ret, factory, cc, elems, map_like, t2))
    &&& sym_is(n.sym(cc), "CC"@, SymKind::TypeParam, m, 0, ""@)
    &&& n.sym(cc).ty == Ty::TypeParam(cc)
    &&& n.sym(cc).tparams@ == xs
    &&& n.sym(cc).members@ == xs
    &&& forall|i: int| 0 <= i < a ==> is_type_param(n.sym(#[trigger] xs[i]), xs[i], cc, x_names(map_like)[i])
    &&& forall|i: int| 0 <= i < a ==> is_type_param(n.sym(#[trigger] elems[i]), elems[i], m, elem_names(map_like)[i])
    &&& fresh_symbol(n.sym(p), "factory"@, SymKind::Term, Some(m), FLAG_PARAM, ""@)
    &&& is_factory_param(n.sym(p).ty, fac, cc)
}

/// One entry of `add_to_factory`: when the factory trait `fac_jvm` and the
/// module class `mod_jvm` are in `o`, the module class's `toFactory`
/// members are dropped and (unless a map lacks `Tuple2`) the view
/// `toFactory` is declared on it; else nothing.
pub open spec fn to_factory_entry(o: SymbolTable, n: SymbolTable, factory: SymbolId, t2: Option<SymbolId>, fac_jvm: Seq<char>, mod_jvm: Seq<char>, map_like: bool) -> bool {
    match (o.spec_find_by_jvm(fac_jvm), spec_module_class_by_jvm(o, mod_jvm)) {
        (Some(fac), Some(owner)) => exists|f: SymbolTable|
            #[trigger] to_factory_filtered(o, f, owner) && f.wf() && if map_like && t2 is None {
                n == f
            } else {
                to_factory_declared(f, n, owner, fac, factory, t2, map_like)
            },
        _ => n == o,
    }
}

/// Drop every member named `toFactory` from `owner`.
fn drop_to_factory(st: &mut SymbolTable, owner: SymbolId)
    requires
        old(st).wf(),
        old(st).valid(owner),
    ensures
        final(st).wf(),
        to_factory_filtered(*old(st), *final(st), owner),
{
    let ghost st0 = *st;
    let want = "toFactory".to_owned();
    let mut keep: Vec<SymbolId> = Vec::new();
    let n = st.get(owner).members.len();
    let mut j: usize = 0;
    while j < n
        invariant
            *st == st0,
            st.wf(),
            st.valid(owner),
            n == st.sym(owner).members@.len(),
            want@ == "toFactory"@,
            j <= n,
            keep@ == without_to_factory(st0, st0.sym(owner).members@.take(j as int)),
            forall|q: int| 0 <= q < keep@.len() ==> st.valid(#[trigger] keep@[q]),
        decreases n - j,
    {
        let m = st.get(owner).members[j];
        proof {
            assert(st.valid(st.sym(owner).members@[j as int]));
            let ms = st0.sym(owner).members@;
            assert(ms.take(j + 1).drop_last() =~= ms.take(j as int));
            assert(ms.take(j + 1).last() == m);
        }
        let ghost before = keep@;
        if st.get(m).name != want {
            keep.push(m);
        }
        proof {
            let ms = st0.sym(owner).members@;
            let pred = |x: SymbolId| st0.sym(x).name@ != "toFactory"@;
            reveal(Seq::filter);
            assert(ms.take(j + 1).filter(pred) == if pred(m) {
                ms.take(j as int).filter(pred).push(m)
            } else {
                ms.take(j as int).filter(pred)
            });
        }
        j += 1;
    }
    proof {
        assert(st0.sym(owner).members@.take(n as int) =~= st0.sym(owner).members@);
    }
    st.set_members(owner, keep);
}

/// Declare `toFactory` on `owner`, the module class of `IterableFactory`
/// (or `MapFactory`, `map_like`) whose trait is `fac`, with `factory` the
/// trait `Factory` and `t2` the class `Tuple2`.
#[verifier::spinoff_prover]
#[verifier::rlimit(80)]
fn declare_to_factory(st: &mut SymbolTable, owner: SymbolId, fac: SymbolId, factory: SymbolId, t2: Option<SymbolId>, map_like: bool)
    requires
        old(st).wf(),
        old(st).valid(owner),
        old(st).syms@.len() + 8 < u32::MAX,
        map_like ==> t2 is Some,
    ensures
        final(st).wf(),
        to_factory_declared(*old(st), *final(st), owner, fac, factory, t2, map_like),
{
    let ghost f0 = *st;
    let ghost l = f0.syms@.len() as int;
    let m = method(st, owner, "toFactory", Vec::new(), Ty::Unit, Intrinsic::Plain);
    let ghost s1 = *st;
    let fl = st.get(m).flags | FLAG_IMPLICIT;
    st.set_flags(m, fl);
    let ghost s2 = *st;
    proof {
        lemma_grows_fresh_slot(f0, s1, s2, m, Symbol { flags: fl, ..s1.sym(m) });
    }
    let cc = type_param(st, m, "CC");
    let ghost s3 = *st;
    let xs: Vec<SymbolId> = if map_like {
        let x0 = type_param(st, cc, "X0");
        let x1 = type_param(st, cc, "X1");
        proof {
            assert(forall|i: int| 0 <= i < s3.syms@.len() && i != cc.0 ==> (#[trigger] st.syms@[i]).members@ == s3.syms@[i].members@);
            assert(st.syms@[x0.0 as int].same_except_members(s3.syms@[x0.0 as int]) || x0.0 >= s3.syms@.len());
        }
        vec![x0, x1]
    } else {
        let x0 = type_param(st, cc, "X0");
        vec![x0]
    };
    let ghost s4 = *st;
    let ghost xg = xs@;
    let ghost a = cc_arity(map_like);
    assert(xg == Seq::new(a as nat, |i: int| slot(l, 2 + i)));
    st.set_tparams(cc, xs);
    let ghost s5 = *st;
    proof {
        lemma_grows_trans(f0, s2, s3);
        lemma_grows_trans(f0, s3, s4);
        lemma_grows_fresh_slot(f0, s4, s5, cc, Symbol { tparams: xs, ..s4.sym(cc) });
    }
    let elems: Vec<SymbolId> = if map_like {
        let k = type_param(st, m, "K");
        let v = type_param(st, m, "V");
        proof {
            assert(forall|i: int| 0 <= i < s5.syms@.len() && i != m.0 ==> (#[trigger] st.syms@[i]).members@ == s5.syms@[i].members@);
        }
        vec![k, v]
    } else {
        let a0 = type_param(st, m, "A");
        vec![a0]
    };
    let ghost s6 = *st;
    let ghost eg = elems@;
    assert(eg == Seq::new(a as nat, |i: int| slot(l, 2 + a + i)));
    let mut tps = elems.clone();
    tps.push(cc);
    let ghost tpg = tps;
    st.set_tparams(m, tps);
    let ghost s7 = *st;
    proof {
        lemma_grows_trans(f0, s5, s6);
        lemma_grows_fresh_slot(f0, s6, s7, m, Symbol { tparams: tpg, ..s6.sym(m) });
        assert(tpg@ =~= eg.push(cc));
    }
    // the element types: once for the element, once for `CC[elems]`
    let mut et1: Vec<Ty> = Vec::new();
    let mut et2: Vec<Ty> = Vec::new();
    let mut j: usize = 0;
    while j < elems.len()
        invariant
            j <= elems@.len(),
            et1@ == tparam_tys(elems@.take(j as int)),
            et2@ == et1@,
        decreases elems@.len() - j,
    {
        et1.push(Ty::TypeParam(elems[j]));
        et2.push(Ty::TypeParam(elems[j]));
        proof {
            assert(elems@.take(j + 1) =~= elems@.take(j as int).push(elems@[j as int]));
            assert(tparam_tys(elems@.take(j + 1)) =~= tparam_tys(elems@.take(j as int)).push(Ty::TypeParam(elems@[j as int])));
        }
        j += 1;
    }
    proof {
        assert(elems@.take(elems@.len() as int) =~= elems@);
    }
    let elem = if map_like {
        Ty::Class { sym: t2.unwrap(), args: et1 }
    } else {
        Ty::TypeParam(elems[0])
    };
    let ghost elem_g = elem;
    let built = Ty::Applied { ctor: Box::new(Ty::TypeParam(cc)), args: et2 };
    let ghost built_g = built;
    let pa1 = vec![Ty::TypeParam(cc)];
    let ghost pa1g = pa1@;
    let pa2 = vec![Ty::TypeParam(cc)];
    let ghost pa2g = pa2@;
    let p = value_param(st, m, "factory", FLAG_PARAM, Ty::Class { sym: fac, args: pa1 });
    let ghost s8 = *st;
    let pv = vec![p];
    let ghost pvg = pv;
    st.set_params(m, pv);
    let ghost s9 = *st;
    let inner = vec![p];
    let ghost ig = inner@;
    let pss = vec![inner];
    let ghost pssg = pss;
    st.set_paramss(m, pss);
    let ghost s10 = *st;
    let clause = vec![Ty::Class { sym: fac, args: pa2 }];
    let ghost clg = clause@;
    let rargs = vec![elem, built];
    let ghost rag = rargs@;
    let ty = Ty::Method { paramss: vec![clause], ret: Box::new(Ty::Class { sym: factory, args: rargs }) };
    let ghost tyg = ty;
    st.set_ty(m, ty);
    let ghost s11 = *st;
    proof {
        lemma_grows_trans(f0, s7, s8);
        lemma_grows_fresh_slot(f0, s8, s9, m, Symbol { params: pvg, ..s8.sym(m) });
        lemma_grows_fresh_slot(f0, s9, s10, m, Symbol { paramss: pssg, ..s9.sym(m) });
        lemma_grows_fresh_slot(f0, s10, s11, m, Symbol { ty: tyg, ..s10.sym(m) });
        assert(pa1g == seq![Ty::TypeParam(cc)] && pa2g == pa1g && ig == seq![p]);
        assert(clg.len() == 1 && is_factory_param(clg[0], fac, cc));
        assert(rag == seq![elem_g, built_g]);
        assert(elem_type_ok(elem_g, eg, map_like, t2));
        match tyg {
            Ty::Method { paramss, ret } => {
                assert(to_factory_result_ok(*ret, factory, cc, eg, map_like, t2));
            },
            _ => {},
        }
    }
    let mems = st.get(owner).members.clone();
    let companion = companion_module_of(st, owner);
    proof {
        assert forall|k: int|
            #![trigger s11.sym(s11.sym(f0.sym(owner).owner->0).members@[k])]
            f0.sym(owner).owner is Some && f0.sym(f0.sym(owner).owner->0).members@.len() <= k
                < s11.sym(f0.sym(owner).owner->0).members@.len() implies s11.sym(
            s11.sym(f0.sym(owner).owner->0).members@[k],
        ).kind != SymKind::Module by {
            let w = f0.sym(owner).owner->0;
            assert(s11.syms@[w.0 as int].same_except_members(f0.syms@[w.0 as int]));
            if w == owner {
                assert(s11.sym(w).members@ == f0.sym(w).members@.push(m));
            } else {
                assert(s11.sym(w).members@ == f0.sym(w).members@);
            }
        }
        lemma_companion_kept(f0, s11, owner);
    }
    match companion {
        Some(module) => {
            st.set_members(module, mems);
        },
        None => {},
    }
    proof {
        reveal_strlit("");
        let n = *st;
        assert forall|i: int| 0 <= i < l implies (#[trigger] n.syms@[i]).same_except_members(f0.syms@[i]) by {
            assert(n.syms@[i].same_except_members(s11.syms@[i]));
            assert(s11.syms@[i].same_except_members(f0.syms@[i]));
        }
        assert forall|i: int| 0 <= i < l && i != owner.0 && spec_companion(f0, owner) != Some(SymbolId(i as u32)) implies (
        #[trigger] n.syms@[i]).members@ == f0.syms@[i].members@ by {
            assert(s1.syms@[i].members@ == f0.syms@[i].members@);
            assert(s2.syms@[i] == s1.syms@[i]);
            assert(s3.syms@[i].members@ == s2.syms@[i].members@);
            assert(s4.syms@[i].members@ == s3.syms@[i].members@);
            assert(s5.syms@[i] == s4.syms@[i]);
            assert(s6.syms@[i].members@ == s5.syms@[i].members@);
            assert(s7.syms@[i] == s6.syms@[i]);
            assert(s8.syms@[i].members@ == s7.syms@[i].members@);
            assert(s9.syms@[i] == s8.syms@[i]);
            assert(s10.syms@[i] == s9.syms@[i]);
            assert(s11.syms@[i] == s10.syms@[i]);
        }
        // the method
        assert(s1.sym(m).flags == FLAG_FINAL);
        assert(s2.sym(m).flags == fl);
        assert(s3.syms@[m.0 as int].same_except_members(s2.syms@[m.0 as int]));
        assert(s4.syms@[m.0 as int].same_except_members(s3.syms@[m.0 as int]));
        assert(s6.syms@[m.0 as int].same_except_members(s5.syms@[m.0 as int]));
        assert(s5.syms@[m.0 as int] == s4.syms@[m.0 as int]);
        assert(s7.sym(m).flags == s6.sym(m).flags);
        assert(s8.syms@[m.0 as int].same_except_members(s7.syms@[m.0 as int]));
        assert(s11.sym(m).flags == s8.sym(m).flags);
        assert(s11.sym(m).name == s1.sym(m).name && s11.sym(m).jvm_name == s1.sym(m).jvm_name);
        assert(s11.sym(m).kind == s1.sym(m).kind && s11.sym(m).owner == s1.sym(m).owner);
        assert(n.syms@[m.0 as int].same_except_members(s11.syms@[m.0 as int]));
        assert(n.sym(m).flags == FLAG_FINAL | FLAG_IMPLICIT);
        assert(n.sym(m).name@ == "toFactory"@);
        assert(n.sym(m).kind == SymKind::Method);
        assert(n.sym(m).owner == Some(owner));
        assert(n.sym(m).jvm_name@ == ""@);
        assert(sym_is(n.sym(m), "toFactory"@, SymKind::Method, owner, FLAG_FINAL | FLAG_IMPLICIT, ""@));
        assert(n.sym(m).members@ =~= seq![cc] + eg + seq![p]);
        // `CC` and its parameters
        assert(s4.syms@[cc.0 as int].same_except_members(s3.syms@[cc.0 as int]));
        assert(n.syms@[cc.0 as int].same_except_members(s5.syms@[cc.0 as int]));
        assert(s11.syms@[cc.0 as int].members@ == s5.syms@[cc.0 as int].members@);
        assert(n.sym(cc).members@ =~= xg);
        assert forall|i: int| 0 <= i < a implies is_type_param(n.sym(#[trigger] xg[i]), xg[i], cc, x_names(map_like)[i]) by {
            let x = xg[i];
            assert(n.syms@[x.0 as int].same_except_members(s4.syms@[x.0 as int]));
            assert(s11.syms@[x.0 as int].members@ == s4.syms@[x.0 as int].members@);
        }
        assert forall|i: int| 0 <= i < a implies is_type_param(n.sym(#[trigger] eg[i]), eg[i], m, elem_names(map_like)[i]) by {
            let e = eg[i];
            assert(n.syms@[e.0 as int].same_except_members(s6.syms@[e.0 as int]));
            assert(s11.syms@[e.0 as int].members@ == s6.syms@[e.0 as int].members@);
        }
        assert(n.syms@[p.0 as int].same_except_members(s8.syms@[p.0 as int]));
        assert(s11.syms@[p.0 as int].members@ == s8.syms@[p.0 as int].members@);
    }
}

/// One entry of `add_to_factory`: the trait `fac_jvm` and the module class
/// `mod_jvm` of its companion.
fn add_to_factory_entry(st: &mut SymbolTable, factory: SymbolId, t2: Option<SymbolId>, fac_jvm: &str, mod_jvm: &str, map_like: bool)
    requires
        old(st).wf(),
        old(st).syms@.len() + 8 < u32::MAX,
    ensures
        final(st).wf(),
        final(st).syms@.len() <= old(st).syms@.len() + 7,
        to_factory_entry(*old(st), *final(st), factory, t2, fac_jvm@, mod_jvm@, map_like),
{
    let ghost st0 = *st;
    let fac = match st.find_by_jvm(fac_jvm) {
        Some(f) => f,
        None => {
            return;
        },
    };
    let owner = match module_class_by_jvm(st, mod_jvm) {
        Some(o) => o,
        None => {
            return;
        },
    };
    drop_to_factory(st, owner);
    let ghost f = *st;
    if map_like && t2.is_none() {
        assert(to_factory_filtered(st0, f, owner));
        return;
    }
    declare_to_factory(st, owner, fac, factory, t2, map_like);
    assert(to_factory_filtered(st0, f, owner));
}

/// What `add_to_factory` does to `o`, giving `n`: nothing without `Factory`;
/// else the `IterableFactory` entry, then the `MapFactory` one.
pub open spec fn to_factory_added(o: SymbolTable, n: SymbolTable) -> bool {
    match o.spec_find_by_jvm("scala/collection/Factory"@) {
        None => n == o,
        Some(factory) => {
            let t2 = o.spec_find_by_jvm("scala/Tuple2"@);
            exists|s1: SymbolTable|
                s1.wf() && #[trigger] to_factory_entry(
                    o,
                    s1,
                    factory,
                    t2,
                    "scala/collection/IterableFactory"@,
                    "scala/collection/IterableFactory$"@,
                    false,
                ) && to_factory_entry(s1, n, factory, t2, "scala/collection/MapFactory"@, "scala/collection/MapFactory$"@, true)
        },
    }
}

/// `object IterableFactory { implicit def toFactory[A, CC[_]](factory:
/// IterableFactory[CC]): Factory[A, CC[A]] }` and the `MapFactory` twin,
/// replacing whatever `toFactory` the companions had.
pub fn add_to_factory(st: &mut SymbolTable)
    requires
        old(st).wf(),
        old(st).syms@.len() + 16 < u32::MAX,
    ensures
        final(st).wf(),
        final(st).syms@.len() <= old(st).syms@.len() + 14,
        to_factory_added(*old(st), *final(st)),
{
    let factory = match st.find_by_jvm("scala/collection/Factory") {
        Some(f) => f,
        None => {
            return;
        },
    };
    let tuple2 = st.find_by_jvm("scala/Tuple2");
    let ghost st0 = *st;
    add_to_factory_entry(st, factory, tuple2, "scala/collection/IterableFactory", "scala/collection/IterableFactory$", false);
    let ghost s1 = *st;
    add_to_factory_entry(st, factory, tuple2, "scala/collection/MapFactory", "scala/collection/MapFactory$", true);
    assert(to_factory_entry(
        st0,
        s1,
        factory,
        tuple2,
        "scala/collection/IterableFactory"@,
        "scala/collection/IterableFactory$"@,
        false,
    ));
}

/// The class `c` applied to the type parameter `a`.
pub open spec fn is_class_of_tparam(t: Ty, c: SymbolId, a: SymbolId) -> bool {
    t matches Ty::Class { sym, args } && sym == c && args@ == seq![Ty::TypeParam(a)]
}

/// The method type `(p[A]): r[A]`.
pub open spec fn is_unary_ty(t: Ty, p: SymbolId, r: SymbolId, a: SymbolId) -> bool {
    t matches Ty::Method { paramss, ret } && paramss@.len() == 1 && paramss@[0]@.len() == 1 && is_class_of_tparam(
        paramss@[0]@[0],
        p,
        a,
    ) && is_class_of_tparam(*ret, r, a)
}

/// Whether `t` is `c[A]`.
fn class_of_tparam_at(t: &Ty, c: SymbolId, a: SymbolId) -> (b: bool)
    ensures
        b == is_class_of_tparam(*t, c, a),
{
    match t {
        Ty::Class { sym, args } => {
            if *sym != c || args.len() != 1 {
                return false;
            }
            match &args[0] {
                Ty::TypeParam(x) => {
                    if *x == a {
                        assert(args@ =~= seq![Ty::TypeParam(a)]);
                        true
                    } else {
                        false
                    }
                },
                _ => false,
            }
        },
        _ => false,
    }
}

/// Whether `t` is `(p[A]): r[A]`.
fn unary_ty_at(t: &Ty, p: SymbolId, r: SymbolId, a: SymbolId) -> (b: bool)
    ensures
        b == is_unary_ty(*t, p, r, a),
{
    match t {
        Ty::Method { paramss, ret } => {
            if paramss.len() != 1 || paramss[0].len() != 1 {
                return false;
            }
            class_of_tparam_at(&paramss[0][0], p, a) && class_of_tparam_at(&**ret, r, a)
        },
        _ => false,
    }
}

/// `immutable.Set`, `IterableOnce` and `Set`'s first type parameter, when
/// the table has both classes and `Set` has a type parameter.
pub open spec fn concat_wanted(st: SymbolTable) -> Option<(SymbolId, SymbolId, SymbolId)> {
    match (st.spec_find_by_jvm("scala/collection/immutable/Set"@), st.spec_find_by_jvm("scala/collection/IterableOnce"@)) {
        (Some(set), Some(ioc)) => if st.sym(set).tparams@.len() > 0 {
            Some((set, ioc, st.sym(set).tparams@[0]))
        } else {
            None
        },
        _ => None,
    }
}

/// A member named `++` of type `(Set[A]): Set[A]`.
pub open spec fn concat_pred(st: SymbolTable, set: SymbolId, a: SymbolId) -> spec_fn(SymbolId) -> bool {
    |m: SymbolId| st.sym(m).name@ == "++"@ && is_unary_ty(st.sym(m).ty, set, set, a)
}

/// The members of `set` named `++` of type `(Set[A]): Set[A]`, in order.
pub open spec fn concat_targets(st: SymbolTable, set: SymbolId, a: SymbolId) -> Seq<SymbolId> {
    st.sym(set).members@.filter(concat_pred(st, set, a))
}

/// `p` is `o` with nothing but slot `id`'s type changed.
pub open spec fn ty_replaced(o: SymbolTable, p: SymbolTable, id: SymbolId) -> bool {
    &&& p.syms@.len() == o.syms@.len()
    &&& p.scope == o.scope
    &&& p.same_well_known(o)
    &&& forall|i: int| 0 <= i < o.syms@.len() && i != id.0 ==> #[trigger] p.syms@[i] == o.syms@[i]
    &&& p.sym(id).same_except_ty(o.sym(id))
}

/// Widening one `++`: its type becomes `(IterableOnce[A]): Set[A]`, and then
/// its first parameter, if it has one, is typed `IterableOnce[A]`.
pub open spec fn widen_one(o: SymbolTable, n: SymbolTable, m: SymbolId, set: SymbolId, ioc: SymbolId, a: SymbolId) -> bool {
    exists|q: SymbolTable|
        #[trigger] ty_replaced(o, q, m) && is_unary_ty(q.sym(m).ty, ioc, set, a) && if q.sym(m).params@.len() > 0 {
            let pp = q.sym(m).params@[0];
            ty_replaced(q, n, pp) && is_class_of_tparam(n.sym(pp).ty, ioc, a)
        } else {
            n == q
        }
}

/// `chain` runs through the widening of each of `ts` in turn: state `i + 1`
/// is state `i` with `ts[i]` widened.
pub open spec fn widen_chain(chain: Seq<SymbolTable>, ts: Seq<SymbolId>, set: SymbolId, ioc: SymbolId, a: SymbolId) -> bool {
    &&& chain.len() == ts.len() + 1
    &&& forall|i: int| 0 <= i < ts.len() ==> widen_one(#[trigger] chain[i], chain[i + 1], ts[i], set, ioc, a)
}

/// `n` is `o` with each `++` of `set` of type `(Set[A]): Set[A]` widened
/// in turn.
pub open spec fn widened_with(o: SymbolTable, n: SymbolTable, set: SymbolId, ioc: SymbolId, a: SymbolId) -> bool {
    exists|chain: Seq<SymbolTable>|
        #[trigger] widen_chain(chain, concat_targets(o, set, a), set, ioc, a) && chain[0] == o && chain.last() == n
}

/// What `widen_set_concat` does to `o`, giving `n`: nothing unless
/// `concat_wanted`; then each `++` of type `(Set[A]): Set[A]` is widened
/// to take an `IterableOnce[A]`.
pub open spec fn set_concat_widened(o: SymbolTable, n: SymbolTable) -> bool {
    match concat_wanted(o) {
        None => n == o,
        Some(w) => widened_with(o, n, w.0, w.1, w.2),
    }
}

/// `SetOps.concat(that: IterableOnce[A]): C`: every `++` of `immutable.Set`
/// that takes another `Set[A]` is made to take an `IterableOnce[A]`, its
/// parameter symbol too.
pub fn widen_set_concat(st: &mut SymbolTable)
    requires
        old(st).wf(),
    ensures
        final(st).wf(),
        final(st).syms@.len() == old(st).syms@.len(),
        set_concat_widened(*old(st), *final(st)),
{
    let set = match st.find_by_jvm("scala/collection/immutable/Set") {
        Some(s) => s,
        None => {
            return;
        },
    };
    let ioc = match st.find_by_jvm("scala/collection/IterableOnce") {
        Some(i) => i,
        None => {
            return;
        },
    };
    if st.get(set).tparams.len() == 0 {
        return;
    }
    let a = st.get(set).tparams[0];
    let ghost st0 = *st;
    assert(concat_wanted(st0) == Some((set, ioc, a)));
    // the `++`s to widen, found before any is changed
    let plus = "++".to_owned();
    let mut targets: Vec<SymbolId> = Vec::new();
    let n = st.get(set).members.len();
    let mut j: usize = 0;
    while j < n
        invariant
            *st == st0,
            st.wf(),
            st.valid(set),
            n == st.sym(set).members@.len(),
            plus@ == "++"@,
            j <= n,
            targets@ == st0.sym(set).members@.take(j as int).filter(concat_pred(st0, set, a)),
            forall|q: int| 0 <= q < targets@.len() ==> st.valid(#[trigger] targets@[q]),
        decreases n - j,
    {
        let m = st.get(set).members[j];
        proof {
            assert(st.valid(st.sym(set).members@[j as int]));
            let ms = st0.sym(set).members@;
            assert(ms.take(j + 1).drop_last() =~= ms.take(j as int));
            assert(ms.take(j + 1).last() == m);
            reveal(Seq::filter);
        }
        if st.get(m).name == plus && unary_ty_at(&st.get(m).ty, set, set, a) {
            targets.push(m);
        }
        j += 1;
    }
    proof {
        assert(st0.sym(set).members@.take(n as int) =~= st0.sym(set).members@);
    }
    let ghost ts = targets@;
    let ghost mut chain: Seq<SymbolTable> = seq![st0];
    let mut k: usize = 0;
    while k < targets.len()
        invariant
            st.wf(),
            st.syms@.len() == st0.syms@.len(),
            ts == targets@,
            k <= ts.len(),
            forall|q: int| 0 <= q < ts.len() ==> st0.valid(#[trigger] ts[q]),
            widen_chain(chain, ts.take(k as int), set, ioc, a),
            chain[0] == st0,
            chain.last() == *st,
        decreases ts.len() - k,
    {
        let m = targets[k];
        let ghost before = *st;
        let pa = vec![Ty::TypeParam(a)];
        let ghost pag = pa@;
        let ra = vec![Ty::TypeParam(a)];
        let ghost rag = ra@;
        let clause = vec![Ty::Class { sym: ioc, args: pa }];
        let ghost clg = clause@;
        let widened = Ty::Method { paramss: vec![clause], ret: Box::new(Ty::Class { sym: set, args: ra }) };
        let ghost wg = widened;
        st.set_ty(m, widened);
        let ghost q = *st;
        proof {
            assert(pag == seq![Ty::TypeParam(a)] && rag == pag && clg.len() == 1);
            assert(is_unary_ty(wg, ioc, set, a));
            assert(ty_replaced(before, q, m));
        }
        if st.get(m).params.len() > 0 {
            let pp = st.get(m).params[0];
            proof {
                assert(st.valid(st.sym(m).params@[0]));
            }
            let args = vec![Ty::TypeParam(a)];
            let ghost argsg = args@;
            let pt = Ty::Class { sym: ioc, args };
            let ghost ptg = pt;
            st.set_ty(pp, pt);
            proof {
                assert(argsg == seq![Ty::TypeParam(a)]);
                assert(is_class_of_tparam(ptg, ioc, a));
                assert(ty_replaced(q, *st, pp));
            }
        }
        proof {
            assert(widen_one(before, *st, m, set, ioc, a));
            assert(ts.take(k + 1).drop_last() =~= ts.take(k as int));
            assert(ts.take(k + 1).last() == m);
            let c2 = chain.push(*st);
            assert forall|i: int| 0 <= i < k + 1 implies widen_one(#[trigger] c2[i], c2[i + 1], ts.take(k + 1)[i], set, ioc, a) by {
                if i < k {
                    assert(c2[i] == chain[i] && c2[i + 1] == chain[i + 1] && ts.take(k + 1)[i] == ts.take(k as int)[i]);
                } else {
                    assert(c2[i] == before && c2[i + 1] == *st && ts.take(k + 1)[i] == m);
                }
            }
            chain = c2;
        }
        k += 1;
    }
    proof {
        assert(ts.take(ts.len() as int) =~= ts);
        assert(widen_chain(chain, concat_targets(st0, set, a), set, ioc, a));
        assert(chain[0] == st0 && chain.last() == *st);
        assert(concat_wanted(st0) == Some((set, ioc, a)));
        assert(widened_with(st0, *st, set, ioc, a));
    }
}

/// The companions that are `IterableFactory`s, each with its collection:
/// `(module JVM name, class JVM name)`.
pub open spec fn iterable_factories() -> Seq<(Seq<char>, Seq<char>)> {
    seq![
        ("scala/collection/immutable/List$"@, "scala/collection/immutable/List"@),
        ("scala/collection/immutable/Vector$"@, "scala/collection/immutable/Vector"@),
        ("scala/collection/immutable/Seq$"@, "scala/collection/immutable/Seq"@),
        ("scala/collection/immutable/IndexedSeq$"@, "scala/collection/immutable/IndexedSeq"@),
        ("scala/collection/immutable/Set$"@, "scala/collection/immutable/Set"@),
        ("scala/collection/immutable/LazyList$"@, "scala/collection/immutable/LazyList"@),
        ("scala/collection/immutable/Queue$"@, "scala/collection/immutable/Queue"@),
        ("scala/collection/Iterable$"@, "scala/collection/Iterable"@),
        ("scala/collection/Seq$"@, "scala/collection/Seq"@),
        ("scala/collection/Set$"@, "scala/collection/Set"@),
        ("scala/collection/mutable/ArrayBuffer$"@, "scala/collection/mutable/ArrayBuffer"@),
        ("scala/collection/mutable/ListBuffer$"@, "scala/collection/mutable/ListBuffer"@),
        ("scala/collection/mutable/Set$"@, "scala/collection/mutable/Set"@),
        ("scala/collection/mutable/HashSet$"@, "scala/collection/mutable/HashSet"@),
        ("scala/collection/mutable/LinkedHashSet$"@, "scala/collection/mutable/LinkedHashSet"@),
        ("scala/collection/mutable/ArrayDeque$"@, "scala/collection/mutable/ArrayDeque"@),
        ("scala/collection/mutable/Queue$"@, "scala/collection/mutable/Queue"@),
        ("scala/collection/mutable/Stack$"@, "scala/collection/mutable/Stack"@),
    ]
}

/// The companions that are `MapFactory`s, each with its map class.
pub open spec fn map_factories() -> Seq<(Seq<char>, Seq<char>)> {
    seq![
        ("scala/collection/immutable/Map$"@, "scala/collection/immutable/Map"@),
        ("scala/collection/immutable/HashMap$"@, "scala/collection/immutable/HashMap"@),
        ("scala/collection/mutable/Map$"@, "scala/collection/mutable/Map"@),
        ("scala/collection/mutable/HashMap$"@, "scala/collection/mutable/HashMap"@),
        ("scala/collection/mutable/LinkedHashMap$"@, "scala/collection/mutable/LinkedHashMap"@),
    ]
}

fn iterable_factory_at(k: usize) -> (r: (&'static str, &'static str))
    requires
        k < 18,
    ensures
        (r.0@, r.1@) == iterable_factories()[k as int],
{
    match k {
        0 => ("scala/collection/immutable/List$", "scala/collection/immutable/List"),
        1 => ("scala/collection/immutable/Vector$", "scala/collection/immutable/Vector"),
        2 => ("scala/collection/immutable/Seq$", "scala/collection/immutable/Seq"),
        3 => ("scala/collection/immutable/IndexedSeq$", "scala/collection/immutable/IndexedSeq"),
        4 => ("scala/collection/immutable/Set$", "scala/collection/immutable/Set"),
        5 => ("scala/collection/immutable/LazyList$", "scala/collection/immutable/LazyList"),
        6 => ("scala/collection/immutable/Queue$", "scala/collection/immutable/Queue"),
        7 => ("scala/collection/Iterable$", "scala/collection/Iterable"),
        8 => ("scala/collection/Seq$", "scala/collection/Seq"),
        9 => ("scala/collection/Set$", "scala/collection/Set"),
        10 => ("scala/collection/mutable/ArrayBuffer$", "scala/collection/mutable/ArrayBuffer"),
        11 => ("scala/collection/mutable/ListBuffer$", "scala/collection/mutable/ListBuffer"),
        12 => ("scala/collection/mutable/Set$", "scala/collection/mutable/Set"),
        13 => ("scala/collection/mutable/HashSet$", "scala/collection/mutable/HashSet"),
        14 => ("scala/collection/mutable/LinkedHashSet$", "scala/collection/mutable/LinkedHashSet"),
        15 => ("scala/collection/mutable/ArrayDeque$", "scala/collection/mutable/ArrayDeque"),
        16 => ("scala/collection/mutable/Queue$", "scala/collection/mutable/Queue"),
        _ => ("scala/collection/mutable/Stack$", "scala/collection/mutable/Stack"),
    }
}

fn map_factory_at(k: usize) -> (r: (&'static str, &'static str))
    requires
        k < 5,
    ensures
        (r.0@, r.1@) == map_factories()[k as int],
{
    match k {
        0 => ("scala/collection/immutable/Map$", "scala/collection/immutable/Map"),
        1 => ("scala/collection/immutable/HashMap$", "scala/collection/immutable/HashMap"),
        2 => ("scala/collection/mutable/Map$", "scala/collection/mutable/Map"),
        3 => ("scala/collection/mutable/HashMap$", "scala/collection/mutable/HashMap"),
        _ => ("scala/collection/mutable/LinkedHashMap$", "scala/collection/mutable/LinkedHashMap"),
    }
}

/// `chain` runs through linking each companion of `table` to `fac` in turn.
pub open spec fn links_chain(chain: Seq<SymbolTable>, fac: SymbolId, table: Seq<(Seq<char>, Seq<char>)>, map_like: bool) -> bool {
    &&& chain.len() == table.len() + 1
    &&& forall|i: int| 0 <= i < table.len() ==> (#[trigger] chain[i]).wf() && linked(chain[i], chain[i + 1], fac, table[i].0, table[i].1, map_like)
}

/// `c` is `o` with the members of `fac` cleared.
pub open spec fn members_cleared(o: SymbolTable, c: SymbolTable, fac: SymbolId) -> bool {
    &&& c.syms@.len() == o.syms@.len()
    &&& c.scope == o.scope
    &&& c.same_well_known(o)
    &&& forall|i: int| 0 <= i < o.syms@.len() ==> (#[trigger] c.syms@[i]).same_except_members(o.syms@[i])
    &&& forall|i: int| 0 <= i < o.syms@.len() && i != fac.0 ==> (#[trigger] c.syms@[i]).members@ == o.syms@[i].members@
    &&& c.sym(fac).members@.len() == 0
}

/// The factory trait `fac` loses its members, then each companion of
/// `table` is linked to it in turn.
pub open spec fn group_with(o: SymbolTable, n: SymbolTable, fac: SymbolId, table: Seq<(Seq<char>, Seq<char>)>, map_like: bool) -> bool {
    exists|chain: Seq<SymbolTable>| #[trigger] links_chain(chain, fac, table, map_like) && members_cleared(o, chain[0], fac) && chain.last() == n
}

/// One factory trait's group: nothing if the trait `fac_jvm` is not in the
/// table.
pub open spec fn group_done(o: SymbolTable, n: SymbolTable, fac_jvm: Seq<char>, table: Seq<(Seq<char>, Seq<char>)>, map_like: bool) -> bool {
    match o.spec_find_by_jvm(fac_jvm) {
        None => n == o,
        Some(fac) => group_with(o, n, fac, table, map_like),
    }
}

/// One factory trait `fac_jvm` and its companions.
fn link_group(st: &mut SymbolTable, fac_jvm: &str, map_like: bool)
    requires
        old(st).wf(),
        old(st).syms@.len() + 60 < u32::MAX,
    ensures
        final(st).wf(),
        old(st).syms@.len() <= final(st).syms@.len() <= old(st).syms@.len() + 54,
        group_done(*old(st), *final(st), fac_jvm@, if map_like { map_factories() } else { iterable_factories() }, map_like),
{
    let ghost st0 = *st;
    let ghost table = if map_like { map_factories() } else { iterable_factories() };
    let fac = match st.find_by_jvm(fac_jvm) {
        Some(f) => f,
        None => {
            return;
        },
    };
    st.set_members(fac, Vec::new());
    let ghost c = *st;
    let n: usize = if map_like { 5 } else { 18 };
    let ghost mut chain: Seq<SymbolTable> = seq![c];
    let mut k: usize = 0;
    while k < n
        invariant
            n == table.len(),
            table == if map_like { map_factories() } else { iterable_factories() },
            k <= n,
            st.wf(),
            st0.valid(fac),
            c.syms@.len() == st0.syms@.len(),
            c.syms@.len() <= st.syms@.len() <= c.syms@.len() + 3 * k,
            st0.syms@.len() + 60 < u32::MAX,
            links_chain(chain, fac, table.take(k as int), map_like),
            chain[0] == c,
            chain.last() == *st,
        decreases n - k,
    {
        let (module_jvm, class_jvm) = if map_like {
            map_factory_at(k)
        } else {
            iterable_factory_at(k)
        };
        let ghost before = *st;
        link(st, fac, module_jvm, class_jvm, map_like);
        proof {
            let c2 = chain.push(*st);
            let t2 = table.take(k + 1);
            assert forall|i: int| 0 <= i < k + 1 implies (#[trigger] c2[i]).wf() && linked(c2[i], c2[i + 1], fac, t2[i].0, t2[i].1, map_like) by {
                if i < k {
                    assert(c2[i] == chain[i] && c2[i + 1] == chain[i + 1] && t2[i] == table.take(k as int)[i]);
                } else {
                    assert(c2[i] == before && c2[i + 1] == *st && t2[i] == table[k as int]);
                }
            }
            chain = c2;
        }
        k += 1;
    }
    proof {
        assert(table.take(n as int) =~= table);
        assert(members_cleared(st0, c, fac));
        assert(group_with(st0, *st, fac, table, map_like));
    }
}

/// What `install` does to `o`, giving `n`: against the library, the
/// `IterableFactory` companions, then the `MapFactory` ones, `toFactory`,
/// the widened `Set.++` and `mutable.Map`'s `-`, each on the table the step
/// before left; for the private runtime nothing.
pub open spec fn factories_installed(o: SymbolTable, n: SymbolTable, library_abi: bool) -> bool {
    &&& !library_abi ==> n == o
    &&& library_abi ==> exists|s1: SymbolTable, s2: SymbolTable, s3: SymbolTable, s4: SymbolTable|
        #[trigger] group_done(o, s1, "scala/collection/IterableFactory"@, iterable_factories(), false) && s1.wf() && #[trigger] group_done(
            s1,
            s2,
            "scala/collection/MapFactory"@,
            map_factories(),
            true,
        ) && s2.wf() && #[trigger] to_factory_added(s2, s3) && s3.wf() && #[trigger] set_concat_widened(s3, s4) && s4.wf()
            && mutable_map_removed(s4, n)
}

/// The `IterableFactory` / `MapFactory` edge of every collection companion
/// the table has, the `Factory` evidence derived from it, `toFactory`,
/// `Set.++` taking any `IterableOnce` and `mutable.Map.-`; against the
/// library only.
pub fn install(st: &mut SymbolTable, library_abi: bool)
    requires
        old(st).wf(),
        old(st).syms@.len() + 200 < u32::MAX,
    ensures
        final(st).wf(),
        factories_installed(*old(st), *final(st), library_abi),
{
    if !library_abi {
        return;
    }
    let ghost st0 = *st;
    link_group(st, "scala/collection/IterableFactory", false);
    let ghost s1 = *st;
    link_group(st, "scala/collection/MapFactory", true);
    let ghost s2 = *st;
    add_to_factory(st);
    let ghost s3 = *st;
    widen_set_concat(st);
    let ghost s4 = *st;
    add_mutable_map_removed(st);
    proof {
        assert(group_done(st0, s1, "scala/collection/IterableFactory"@, iterable_factories(), false));
        assert(group_done(s1, s2, "scala/collection/MapFactory"@, map_factories(), true));
        assert(to_factory_added(s2, s3));
        assert(set_concat_widened(s3, s4));
    }
}

} // verus!
