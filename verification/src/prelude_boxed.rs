//! `java.lang.Integer` and friends: the *boxes*, which are not `scala.Int`.
//!
//! The eight wrapper classes, the primitive each boxes, the descriptor letter
//! the box/unbox intrinsics carry, and the `Predef` conversion names nsc uses
//! for each direction (`int2Integer` / `Integer2int` / ...).
use vstd::prelude::*;
use vstd::string::*;

use crate::prelude::{fresh_symbol, is_bare_class_type, module_class_of, spec_module_class_of};
use crate::symbols::{
    lemma_grows_entering_trans, lemma_grows_fresh_slot, FLAG_FINAL, FLAG_IMPLICIT, Intrinsic, Prim, SymKind, Symbol,
    SymbolId, SymbolTable, Ty,
};
use crate::text::{chars_eq, chars_of};

verus! {

/// The eight wrappers, by JVM internal name, in the order they are installed.
pub open spec fn box_jvm(i: int) -> Seq<char> {
    if i == 0 {
        "java/lang/Boolean"@
    } else if i == 1 {
        "java/lang/Byte"@
    } else if i == 2 {
        "java/lang/Short"@
    } else if i == 3 {
        "java/lang/Character"@
    } else if i == 4 {
        "java/lang/Integer"@
    } else if i == 5 {
        "java/lang/Long"@
    } else if i == 6 {
        "java/lang/Float"@
    } else {
        "java/lang/Double"@
    }
}

/// The primitive boxed by the `i`th wrapper.
pub open spec fn box_prim(i: int) -> Prim {
    if i == 0 {
        Prim::Boolean
    } else if i == 1 {
        Prim::Byte
    } else if i == 2 {
        Prim::Short
    } else if i == 3 {
        Prim::Char
    } else if i == 4 {
        Prim::Int
    } else if i == 5 {
        Prim::Long
    } else if i == 6 {
        Prim::Float
    } else {
        Prim::Double
    }
}

/// The JVM descriptor letter of a primitive.
pub open spec fn prim_desc(p: Prim) -> Seq<char> {
    match p {
        Prim::Boolean => seq!['Z'],
        Prim::Byte => seq!['B'],
        Prim::Short => seq!['S'],
        Prim::Char => seq!['C'],
        Prim::Int => seq!['I'],
        Prim::Long => seq!['J'],
        Prim::Float => seq!['F'],
        Prim::Double => seq!['D'],
    }
}

/// Which wrapper `jvm` names: the first of the eight it equals, and the
/// last (`Double`) for any other name.
pub open spec fn box_index(jvm: Seq<char>) -> int {
    if jvm == box_jvm(0) {
        0
    } else if jvm == box_jvm(1) {
        1
    } else if jvm == box_jvm(2) {
        2
    } else if jvm == box_jvm(3) {
        3
    } else if jvm == box_jvm(4) {
        4
    } else if jvm == box_jvm(5) {
        5
    } else if jvm == box_jvm(6) {
        6
    } else {
        7
    }
}

fn box_index_exec(jvm: &str) -> (r: usize)
    ensures
        r == box_index(jvm@),
        r < 8,
{
    let j = chars_of(jvm);
    if chars_eq(&j, &chars_of("java/lang/Boolean")) {
        0
    } else if chars_eq(&j, &chars_of("java/lang/Byte")) {
        1
    } else if chars_eq(&j, &chars_of("java/lang/Short")) {
        2
    } else if chars_eq(&j, &chars_of("java/lang/Character")) {
        3
    } else if chars_eq(&j, &chars_of("java/lang/Integer")) {
        4
    } else if chars_eq(&j, &chars_of("java/lang/Long")) {
        5
    } else if chars_eq(&j, &chars_of("java/lang/Float")) {
        6
    } else {
        7
    }
}

/// The primitive a wrapper boxes (`Double` for anything else).
pub fn primitive_of(jvm: &str) -> (r: Prim)
    ensures
        r == box_prim(box_index(jvm@)),
{
    let i = box_index_exec(jvm);
    if i == 0 {
        Prim::Boolean
    } else if i == 1 {
        Prim::Byte
    } else if i == 2 {
        Prim::Short
    } else if i == 3 {
        Prim::Char
    } else if i == 4 {
        Prim::Int
    } else if i == 5 {
        Prim::Long
    } else if i == 6 {
        Prim::Float
    } else {
        Prim::Double
    }
}

/// The JVM descriptor letter the box/unbox intrinsic carries, so codegen knows
/// which `valueOf` / `xxxValue` pair to emit without re-deriving it from the
/// (possibly narrower) static type of the argument.
pub fn desc_of(jvm: &str) -> (r: &'static str)
    ensures
        r@ == prim_desc(box_prim(box_index(jvm@))),
{
    let i = box_index_exec(jvm);
    if i == 0 {
        proof { reveal_strlit("Z"); }
        "Z"
    } else if i == 1 {
        proof { reveal_strlit("B"); }
        "B"
    } else if i == 2 {
        proof { reveal_strlit("S"); }
        "S"
    } else if i == 3 {
        proof { reveal_strlit("C"); }
        "C"
    } else if i == 4 {
        proof { reveal_strlit("I"); }
        "I"
    } else if i == 5 {
        proof { reveal_strlit("J"); }
        "J"
    } else if i == 6 {
        proof { reveal_strlit("F"); }
        "F"
    } else {
        proof { reveal_strlit("D"); }
        "D"
    }
}

/// `owner` has a method member named `name`.
pub open spec fn declares_method_named(st: SymbolTable, owner: SymbolId, name: Seq<char>) -> bool {
    exists|j: int|
        0 <= j < st.sym(owner).members@.len() && {
            let m = st.sym(#[trigger] st.sym(owner).members@[j]);
            m.name@ == name && m.kind == SymKind::Method
        }
}

/// One side of a conversion: the wrapper class when `boxed`, else the primitive.
pub open spec fn side_ty(t: Ty, boxed: bool, prim: Prim, wrapper: SymbolId) -> bool {
    if boxed {
        is_bare_class_type(t, wrapper)
    } else {
        t == Ty::Prim(prim)
    }
}

/// The intrinsic a conversion is emitted as.
pub open spec fn conversion_intrinsic(boxing: bool, prim: Prim) -> Intrinsic {
    if boxing {
        Intrinsic::BoxValue(prim)
    } else {
        Intrinsic::UnboxValue(prim)
    }
}

/// Symbol `id` is the implicit conversion `name(x: from): to` on `owner`,
/// boxing `prim` into `wrapper` (or unboxing it), with its parameter `x` in
/// the slot after it.
pub open spec fn is_conversion(st: SymbolTable, id: SymbolId, owner: SymbolId, name: Seq<char>, boxing: bool, prim: Prim, wrapper: SymbolId) -> bool {
    let s = st.sym(id);
    let x = SymbolId((id.0 + 1) as u32);
    let p = st.sym(x);
    &&& st.valid(id)
    &&& st.valid(x)
    &&& s.name@ == name
    &&& s.kind == SymKind::Method
    &&& s.owner == Some(owner)
    &&& s.flags == FLAG_FINAL | FLAG_IMPLICIT
    &&& s.jvm_name@.len() == 0
    &&& s.params@ == seq![x]
    &&& s.paramss@.len() == 1
    &&& s.paramss@[0]@ == seq![x]
    &&& s.intrinsic == conversion_intrinsic(boxing, prim)
    &&& (s.ty matches Ty::Method { paramss, ret } && paramss@.len() == 1 && paramss@[0]@.len() == 1
        && side_ty(paramss@[0]@[0], !boxing, prim, wrapper) && side_ty(*ret, boxing, prim, wrapper))
    &&& p.name@ == "x"@
    &&& p.kind == SymKind::Term
    &&& p.owner == Some(id)
    &&& p.flags == 0
    &&& side_ty(p.ty, !boxing, prim, wrapper)
}

fn side(boxed: bool, prim: Prim, wrapper: SymbolId) -> (t: Ty)
    ensures
        side_ty(t, boxed, prim, wrapper),
{
    if boxed {
        Ty::Class { sym: wrapper, args: Vec::new() }
    } else {
        Ty::Prim(prim)
    }
}

fn has_method_named(st: &SymbolTable, owner: SymbolId, name: &str) -> (r: bool)
    requires
        st.wf(),
        st.valid(owner),
    ensures
        r == declares_method_named(*st, owner, name@),
{
    let want = name.to_owned();
    let members = &st.get(owner).members;
    let mut j: usize = 0;
    while j < members.len()
        invariant
            st.wf(),
            st.valid(owner),
            members@ == st.sym(owner).members@,
            want@ == name@,
            j <= members@.len(),
            forall|k: int| 0 <= k < j ==> {
                let m = st.sym(#[trigger] st.sym(owner).members@[k]);
                !(m.name@ == name@ && m.kind == SymKind::Method)
            },
        decreases members@.len() - j,
    {
        let m = members[j];
        proof {
            assert(st.valid(st.sym(owner).members@[j as int]));
        }
        let s = st.get(m);
        if s.name == want && s.kind == SymKind::Method {
            return true;
        }
        j += 1;
    }
    false
}


/// What `add_conversion` does: nothing when `predef_cls` already has a
/// method `name`; else the conversion in two fresh slots, listed on the
/// class and on the module value, and entered into the scope under `name`.
pub open spec fn conversion_added(
    o: SymbolTable,
    n: SymbolTable,
    predef_cls: SymbolId,
    predef: SymbolId,
    name: Seq<char>,
    boxing: bool,
    prim: Prim,
    wrapper: SymbolId,
) -> bool {
    &&& declares_method_named(o, predef_cls, name) ==> n == o
    &&& !declares_method_named(o, predef_cls, name) ==> {
        let id = SymbolId(o.syms@.len() as u32);
        &&& n.grows_entering(o)
        &&& n.syms@.len() == o.syms@.len() + 2
        &&& is_conversion(n, id, predef_cls, name, boxing, prim, wrapper)
        &&& n.scope_view() == o.scope_view().push((name, id))
        &&& forall|t: int| o.sym(predef_cls).members@.len() <= t < n.sym(predef_cls).members@.len() ==> #[trigger] n.sym(
            predef_cls,
        ).members@[t] == id
        &&& predef != predef_cls ==> n.sym(predef_cls).members@ == o.sym(predef_cls).members@.push(id)
        &&& predef != predef_cls ==> n.sym(predef).members@ == o.sym(predef).members@.push(id)
        &&& forall|i: int| 0 <= i < o.syms@.len() && i != predef.0 && i != predef_cls.0 ==> (#[trigger] n.syms@[i]).members@
            == o.syms@[i].members@
    }
    &&& declares_method_named(n, predef_cls, name)
}

/// A `Predef` implicit conversion `name(x: from): to`, boxing `prim` into
/// `wrapper` or unboxing it, on `Predef`'s class `predef_cls`, unless that
/// class already has a method of this name. The new method is also listed
/// on the `Predef` module value and entered into the compilation's scope:
/// the module's members and the scope were synced before, so each new member
/// does its own sync. Its parameter gets a symbol of its own, `x`.
pub fn add_conversion(
    st: &mut SymbolTable,
    predef_cls: SymbolId,
    predef: SymbolId,
    name: &str,
    boxing: bool,
    prim: Prim,
    wrapper: SymbolId,
)
    requires
        old(st).wf(),
        old(st).valid(predef_cls),
        old(st).valid(predef),
        old(st).syms@.len() + 2 < u32::MAX,
    ensures
        final(st).wf(),
        conversion_added(*old(st), *final(st), predef_cls, predef, name@, boxing, prim, wrapper),
{
    if has_method_named(st, predef_cls, name) {
        return;
    }
    let ghost st0 = *st;
    let id = st.new_symbol(name, Some(predef_cls), SymKind::Method, FLAG_FINAL | FLAG_IMPLICIT, "");
    let ghost s1 = *st;
    let x = st.new_symbol("x", Some(id), SymKind::Term, 0, "");
    let ghost s2 = *st;
    let from_p = side(!boxing, prim, wrapper);
    let ghost fp = from_p;
    st.set_ty(x, from_p);
    let ghost s3 = *st;
    let mut params: Vec<SymbolId> = Vec::new();
    params.push(x);
    let ghost pv = params;
    st.set_params(id, params);
    let ghost s4 = *st;
    let mut clause: Vec<SymbolId> = Vec::new();
    clause.push(x);
    let mut paramss: Vec<Vec<SymbolId>> = Vec::new();
    paramss.push(clause);
    let ghost psv = paramss;
    st.set_paramss(id, paramss);
    let ghost s5 = *st;
    let from_t = side(!boxing, prim, wrapper);
    let to_t = side(boxing, prim, wrapper);
    let mut tclause: Vec<Ty> = Vec::new();
    tclause.push(from_t);
    let mut tss: Vec<Vec<Ty>> = Vec::new();
    tss.push(tclause);
    let mty = Ty::Method { paramss: tss, ret: Box::new(to_t) };
    let ghost mtv = mty;
    st.set_ty(id, mty);
    let ghost s6 = *st;
    let ic = if boxing {
        Intrinsic::BoxValue(prim)
    } else {
        Intrinsic::UnboxValue(prim)
    };
    st.set_intrinsic(id, ic);
    let ghost s7 = *st;
    proof {
        lemma_grows_fresh_slot(st0, s2, s3, x, Symbol { ty: fp, ..s2.sym(x) });
        lemma_grows_fresh_slot(st0, s3, s4, id, Symbol { params: pv, ..s3.sym(id) });
        lemma_grows_fresh_slot(st0, s4, s5, id, Symbol { paramss: psv, ..s4.sym(id) });
        lemma_grows_fresh_slot(st0, s5, s6, id, Symbol { ty: mtv, ..s5.sym(id) });
        lemma_grows_fresh_slot(st0, s6, s7, id, Symbol { intrinsic: ic, ..s6.sym(id) });
        crate::symbols::lemma_grows_trans(st0, s1, s2);
    }
    st.push_member(predef, id);
    let ghost s8 = *st;
    st.enter_in_current(name, id);
    proof {
        assert(s7.grows_entering(st0));
        assert(s8.grows_entering(s7));
        assert(st.grows_entering(s8)) by {
            assert forall|i: int| 0 <= i < s8.syms@.len() implies s8.syms@[i].members@.is_prefix_of(#[trigger] st.syms@[i].members@) by {}
        }
        lemma_grows_entering_trans(st0, s7, s8);
        lemma_grows_entering_trans(st0, s8, *st);
        reveal_strlit("x");
        reveal_strlit("");
        assert(SymbolId((id.0 + 1) as u32) == x);
        assert(s8.syms@[x.0 as int].same_except_members(s7.syms@[x.0 as int]));
        assert(s8.syms@[id.0 as int].same_except_members(s7.syms@[id.0 as int]));
        assert(s7.syms@[id.0 as int].members@ == s1.syms@[id.0 as int].members@.push(x));
        let ms = st.sym(predef_cls).members@;
        assert(ms[ms.len() - 1] == id || predef == predef_cls);
        if predef != predef_cls {
            assert(st.sym(predef_cls).members@ == st0.sym(predef_cls).members@.push(id));
            assert(st.sym(predef_cls).members@[st0.sym(predef_cls).members@.len() as int] == id);
        } else {
            assert(st.sym(predef_cls).members@ == st0.sym(predef_cls).members@.push(id).push(id));
            assert(st.sym(predef_cls).members@[st0.sym(predef_cls).members@.len() as int] == id);
        }
        assert(st.sym(id).name@ == name@);
    }
}

/// The `Predef` conversion into the `i`th wrapper (`int2Integer`) and out
/// of it (`Integer2int`).
pub open spec fn box_names(i: int) -> (Seq<char>, Seq<char>) {
    if i == 0 {
        ("boolean2Boolean"@, "Boolean2boolean"@)
    } else if i == 1 {
        ("byte2Byte"@, "Byte2byte"@)
    } else if i == 2 {
        ("short2Short"@, "Short2short"@)
    } else if i == 3 {
        ("char2Character"@, "Character2char"@)
    } else if i == 4 {
        ("int2Integer"@, "Integer2int"@)
    } else if i == 5 {
        ("long2Long"@, "Long2long"@)
    } else if i == 6 {
        ("float2Float"@, "Float2float"@)
    } else {
        ("double2Double"@, "Double2double"@)
    }
}

fn box_entry(i: usize) -> (r: (&'static str, &'static str, &'static str))
    requires
        i < 8,
    ensures
        r.0@ == box_jvm(i as int),
        (r.1@, r.2@) == box_names(i as int),
{
    match i {
        0 => ("java/lang/Boolean", "boolean2Boolean", "Boolean2boolean"),
        1 => ("java/lang/Byte", "byte2Byte", "Byte2byte"),
        2 => ("java/lang/Short", "short2Short", "Short2short"),
        3 => ("java/lang/Character", "char2Character", "Character2char"),
        4 => ("java/lang/Integer", "int2Integer", "Integer2int"),
        5 => ("java/lang/Long", "long2Long", "Long2long"),
        6 => ("java/lang/Float", "float2Float", "Float2float"),
        _ => ("java/lang/Double", "double2Double", "Double2double"),
    }
}

/// Conversion `k` of the sixteen: into the `k / 2`th wrapper for even `k`,
/// out of it for odd.
pub open spec fn conversion_name(k: int) -> Seq<char> {
    if k % 2 == 0 {
        box_names(k / 2).0
    } else {
        box_names(k / 2).1
    }
}

proof fn lemma_conversion_names_distinct(a: int, b: int)
    requires
        0 <= a < 16,
        0 <= b < 16,
        a != b,
    ensures
        conversion_name(a) != conversion_name(b),
{
    reveal_strlit("boolean2Boolean");
    reveal_strlit("Boolean2boolean");
    reveal_strlit("byte2Byte");
    reveal_strlit("Byte2byte");
    reveal_strlit("short2Short");
    reveal_strlit("Short2short");
    reveal_strlit("char2Character");
    reveal_strlit("Character2char");
    reveal_strlit("int2Integer");
    reveal_strlit("Integer2int");
    reveal_strlit("long2Long");
    reveal_strlit("Long2long");
    reveal_strlit("float2Float");
    reveal_strlit("Float2float");
    reveal_strlit("double2Double");
    reveal_strlit("Double2double");
    let x = conversion_name(a);
    let y = conversion_name(b);
    if x == y {
        assert(x.len() == y.len());
        assert(x[0] == y[0]);
    }
}

/// The conversions among the first `n` that `owner` has no method for in
/// `st`, in order: the ones installing adds.
pub open spec fn missing_conversions(st: SymbolTable, owner: SymbolId, n: nat) -> Seq<int>
    decreases n,
{
    if n == 0 {
        Seq::empty()
    } else {
        let rest = missing_conversions(st, owner, (n - 1) as nat);
        if declares_method_named(st, owner, conversion_name(n - 1)) {
            rest
        } else {
            rest.push(n - 1)
        }
    }
}

/// What installing the conversions adds to the scope: each new one under
/// its name, in order.
pub open spec fn conversion_entries(st: SymbolTable, owner: SymbolId, n: nat) -> Seq<(Seq<char>, SymbolId)> {
    let miss = missing_conversions(st, owner, n);
    Seq::new(miss.len(), |j: int| (conversion_name(miss[j]), SymbolId((st.syms@.len() + 2 * j) as u32)))
}

proof fn lemma_missing_bounds(st: SymbolTable, owner: SymbolId, n: nat)
    ensures
        missing_conversions(st, owner, n).len() <= n,
        forall|j: int| 0 <= j < missing_conversions(st, owner, n).len() ==> 0 <= #[trigger] missing_conversions(st, owner, n)[j] < n,
    decreases n,
{
    if n > 0 {
        lemma_missing_bounds(st, owner, (n - 1) as nat);
    }
}

proof fn lemma_box_index(i: int)
    requires
        0 <= i < 8,
    ensures
        box_index(box_jvm(i)) == i,
{
    reveal_strlit("java/lang/Boolean");
    reveal_strlit("java/lang/Byte");
    reveal_strlit("java/lang/Short");
    reveal_strlit("java/lang/Character");
    reveal_strlit("java/lang/Integer");
    reveal_strlit("java/lang/Long");
    reveal_strlit("java/lang/Float");
    reveal_strlit("java/lang/Double");
    let j = box_jvm(i);
    assert(j.len() > 11);
    assert(j[10] == j[10]);
    if i != 0 { assert(j != box_jvm(0)) by { if j == box_jvm(0) { assert(j.len() == box_jvm(0).len()); assert(j[10] == box_jvm(0)[10]); assert(j[11] == box_jvm(0)[11]); } } }
    if i != 1 { assert(j != box_jvm(1)) by { if j == box_jvm(1) { assert(j.len() == box_jvm(1).len()); assert(j[10] == box_jvm(1)[10]); assert(j[11] == box_jvm(1)[11]); } } }
    if i != 2 { assert(j != box_jvm(2)) by { if j == box_jvm(2) { assert(j.len() == box_jvm(2).len()); assert(j[10] == box_jvm(2)[10]); } } }
    if i != 3 { assert(j != box_jvm(3)) by { if j == box_jvm(3) { assert(j.len() == box_jvm(3).len()); assert(j[10] == box_jvm(3)[10]); } } }
    if i != 4 { assert(j != box_jvm(4)) by { if j == box_jvm(4) { assert(j.len() == box_jvm(4).len()); assert(j[10] == box_jvm(4)[10]); } } }
    if i != 5 { assert(j != box_jvm(5)) by { if j == box_jvm(5) { assert(j.len() == box_jvm(5).len()); assert(j[10] == box_jvm(5)[10]); } } }
    if i != 6 { assert(j != box_jvm(6)) by { if j == box_jvm(6) { assert(j.len() == box_jvm(6).len()); assert(j[10] == box_jvm(6)[10]); } } }
}

/// A conversion found in one table is found, unchanged, once it has grown.
proof fn lemma_conversion_kept(a: SymbolTable, b: SymbolTable, id: SymbolId, owner: SymbolId, name: Seq<char>, boxing: bool, prim: Prim, wrapper: SymbolId)
    requires
        b.grows_entering(a),
        is_conversion(a, id, owner, name, boxing, prim, wrapper),
    ensures
        is_conversion(b, id, owner, name, boxing, prim, wrapper),
{
    let x = SymbolId((id.0 + 1) as u32);
    assert(b.syms@[id.0 as int].same_except_members(a.syms@[id.0 as int]));
    assert(b.syms@[x.0 as int].same_except_members(a.syms@[x.0 as int]));
}

/// A method `owner` has stays once the table has grown.
proof fn lemma_declares_named_kept(a: SymbolTable, b: SymbolTable, owner: SymbolId, name: Seq<char>)
    requires
        a.wf(),
        a.valid(owner),
        b.grows_entering(a),
        declares_method_named(a, owner, name),
    ensures
        declares_method_named(b, owner, name),
{
    let j = choose|j: int|
        0 <= j < a.sym(owner).members@.len() && {
            let m = a.sym(#[trigger] a.sym(owner).members@[j]);
            m.name@ == name && m.kind == SymKind::Method
        };
    let m = a.sym(owner).members@[j];
    assert(a.valid(m));
    assert(b.sym(owner).members@[j] == m);
    assert(b.syms@[m.0 as int].same_except_members(a.syms@[m.0 as int]));
}


/// `m` is the slot of the `j`th conversion added, for some `j < count`.
pub open spec fn conversion_slot(m: SymbolId, len0: int, count: int) -> bool {
    &&& m.0 >= len0
    &&& (m.0 - len0) % 2 == 0
    &&& (m.0 - len0) / 2 < count
}

/// The state of `install` once the first `k` conversions have been handled.
pub open spec fn boxes_progress(
    st0: SymbolTable,
    st: SymbolTable,
    pc: SymbolId,
    predef: SymbolId,
    boxes: Seq<SymbolId>,
    k: int,
) -> bool {
    let miss = missing_conversions(st0, pc, k as nat);
    let len0 = st0.syms@.len();
    let new_ids = Seq::new(miss.len(), |j: int| SymbolId((len0 + 2 * j) as u32));
    &&& st.wf()
    &&& st.grows_entering(st0)
    &&& st.syms@.len() == len0 + 2 * miss.len()
    &&& forall|j: int| #![trigger miss[j]] 0 <= j < miss.len() ==> is_conversion(
        st,
        SymbolId((len0 + 2 * j) as u32),
        pc,
        conversion_name(miss[j]),
        miss[j] % 2 == 0,
        box_prim(miss[j] / 2),
        boxes[miss[j] / 2],
    )
    &&& st.scope_view() == st0.scope_view() + conversion_entries(st0, pc, k as nat)
    &&& predef != pc ==> st.sym(pc).members@ == st0.sym(pc).members@ + new_ids
    &&& predef != pc ==> st.sym(predef).members@ == st0.sym(predef).members@ + new_ids
    &&& forall|t: int|
        st0.sym(pc).members@.len() <= t < st.sym(pc).members@.len() ==> conversion_slot(
            #[trigger] st.sym(pc).members@[t],
            len0 as int,
            miss.len() as int,
        )
    &&& forall|q: int| 0 <= q < k ==> declares_method_named(st, pc, #[trigger] conversion_name(q))
}

/// Handling conversion `k` takes `install` from the state after `k` to the
/// state after `k + 1`.
#[verifier::rlimit(40)]
proof fn lemma_boxes_step(
    st0: SymbolTable,
    a: SymbolTable,
    b: SymbolTable,
    pc: SymbolId,
    predef: SymbolId,
    boxes: Seq<SymbolId>,
    k: int,
)
    requires
        0 <= k < 16,
        boxes.len() == 8,
        st0.wf(),
        st0.valid(pc),
        st0.valid(predef),
        boxes_progress(st0, a, pc, predef, boxes, k),
        b.wf(),
        conversion_added(a, b, pc, predef, conversion_name(k), k % 2 == 0, box_prim(k / 2), boxes[k / 2]),
    ensures
        boxes_progress(st0, b, pc, predef, boxes, k + 1),
{
    let len0 = st0.syms@.len();
    let miss = missing_conversions(st0, pc, k as nat);
    let miss1 = missing_conversions(st0, pc, (k + 1) as nat);
    let name = conversion_name(k);
    lemma_missing_bounds(st0, pc, k as nat);
    // whether `pc` had a method named as conversion `k` is the same in `a` as in `st0`
    assert(declares_method_named(a, pc, name) == declares_method_named(st0, pc, name)) by {
        if declares_method_named(st0, pc, name) {
            lemma_declares_named_kept(st0, a, pc, name);
        }
        if declares_method_named(a, pc, name) {
            let j = choose|j: int|
                0 <= j < a.sym(pc).members@.len() && {
                    let m = a.sym(#[trigger] a.sym(pc).members@[j]);
                    m.name@ == name && m.kind == SymKind::Method
                };
            let m = a.sym(pc).members@[j];
            if j < st0.sym(pc).members@.len() {
                assert(st0.sym(pc).members@[j] == m);
                assert(st0.valid(m));
                assert(a.syms@[m.0 as int].same_except_members(st0.syms@[m.0 as int]));
            } else {
                assert(conversion_slot(m, len0 as int, miss.len() as int));
                let jj = (m.0 - len0) / 2;
                assert(m == SymbolId((len0 + 2 * jj) as u32));
                assert(miss[jj] == miss[jj]);
                assert(is_conversion(a, SymbolId((len0 + 2 * jj) as u32), pc, conversion_name(miss[jj]), miss[jj] % 2 == 0, box_prim(miss[jj] / 2), boxes[miss[jj] / 2]));
                lemma_conversion_names_distinct(miss[jj], k);
            }
        }
    }
    if declares_method_named(a, pc, name) {
        assert(miss1 == miss);
        assert(conversion_entries(st0, pc, (k + 1) as nat) =~= conversion_entries(st0, pc, k as nat));
    } else {
        let id = SymbolId(a.syms@.len() as u32);
        assert(miss1 == miss.push(k));
        assert(id == SymbolId((len0 + 2 * miss.len()) as u32));
        assert forall|j: int| #![trigger miss1[j]] 0 <= j < miss1.len() implies is_conversion(
            b,
            SymbolId((len0 + 2 * j) as u32),
            pc,
            conversion_name(miss1[j]),
            miss1[j] % 2 == 0,
            box_prim(miss1[j] / 2),
            boxes[miss1[j] / 2],
        ) by {
            if j < miss.len() {
                assert(miss1[j] == miss[j]);
                lemma_conversion_kept(a, b, SymbolId((len0 + 2 * j) as u32), pc, conversion_name(miss[j]), miss[j] % 2 == 0, box_prim(miss[j] / 2), boxes[miss[j] / 2]);
            }
        }
        assert(conversion_entries(st0, pc, (k + 1) as nat) =~= conversion_entries(st0, pc, k as nat).push((name, id)));
        assert(b.scope_view() =~= st0.scope_view() + conversion_entries(st0, pc, (k + 1) as nat));
        let new_ids = Seq::new(miss.len(), |j: int| SymbolId((len0 + 2 * j) as u32));
        let new_ids1 = Seq::new(miss1.len(), |j: int| SymbolId((len0 + 2 * j) as u32));
        assert(new_ids1 =~= new_ids.push(id));
        if predef != pc {
            assert(b.sym(pc).members@ =~= st0.sym(pc).members@ + new_ids1);
            assert(b.sym(predef).members@ =~= st0.sym(predef).members@ + new_ids1);
        }
        assert forall|t: int|
            st0.sym(pc).members@.len() <= t < b.sym(pc).members@.len() implies conversion_slot(
            #[trigger] b.sym(pc).members@[t],
            len0 as int,
            miss1.len() as int,
        ) by {
            if t < a.sym(pc).members@.len() {
                assert(a.sym(pc).members@.is_prefix_of(b.sym(pc).members@));
                assert(b.sym(pc).members@[t] == a.sym(pc).members@[t]);
                assert(conversion_slot(a.sym(pc).members@[t], len0 as int, miss.len() as int));
            } else {
                assert(b.sym(pc).members@[t] == id);
            }
        }
    }
    assert forall|q: int| 0 <= q < k + 1 implies declares_method_named(b, pc, #[trigger] conversion_name(q)) by {
        if q < k {
            lemma_declares_named_kept(a, b, pc, conversion_name(q));
        }
    }
}

/// Install the sixteen `Predef` conversions between the primitives and
/// their boxes (`int2Integer`, `Integer2int`, ...) on `Predef`'s class, each
/// unless already there, as intrinsics; then enter `Integer`, `Character`
/// and `Number` (the three `java.lang` names no `scala` type shadows) into
/// the scope, as `import java.lang._` does. `boxes` are the classes of
/// `java.lang.Boolean` ... `java.lang.Double` in that order, and `number`
/// that of `java.lang.Number`, as the class path resolves them. A table
/// without a `Predef` module class is left alone.
pub fn install(st: &mut SymbolTable, boxes: &Vec<SymbolId>, number: SymbolId)
    requires
        old(st).wf(),
        boxes@.len() == 8,
        old(st).syms@.len() + 32 < u32::MAX,
        old(st).predef matches Some(m) ==> (spec_module_class_of(*old(st), m) matches Some(c) ==> old(st).valid(c)),
    ensures
        final(st).wf(),
        (old(st).predef matches Some(m) && spec_module_class_of(*old(st), m) is Some) || *final(st) == *old(st),
        old(st).predef matches Some(m) ==> (spec_module_class_of(*old(st), m) matches Some(pc) ==> {
            let miss = missing_conversions(*old(st), pc, 16);
            let len0 = old(st).syms@.len();
            let new_ids = Seq::new(miss.len(), |j: int| SymbolId((len0 + 2 * j) as u32));
            &&& final(st).grows_entering(*old(st))
            &&& final(st).syms@.len() == len0 + 2 * miss.len()
            &&& forall|j: int| #![trigger miss[j]] 0 <= j < miss.len() ==> is_conversion(
                *final(st),
                SymbolId((len0 + 2 * j) as u32),
                pc,
                conversion_name(miss[j]),
                miss[j] % 2 == 0,
                box_prim(miss[j] / 2),
                boxes@[miss[j] / 2],
            )
            &&& forall|k: int| 0 <= k < 16 ==> declares_method_named(*final(st), pc, #[trigger] conversion_name(k))
            &&& final(st).scope_view() == old(st).scope_view() + conversion_entries(*old(st), pc, 16) + seq![
                ("Integer"@, boxes@[4]),
                ("Character"@, boxes@[3]),
                ("Number"@, number),
            ]
            &&& m != pc ==> final(st).sym(pc).members@ == old(st).sym(pc).members@ + new_ids
            &&& m != pc ==> final(st).sym(m).members@ == old(st).sym(m).members@ + new_ids
        }),
{
    let predef = match st.predef {
        Some(m) => m,
        None => {
            return;
        },
    };
    let pc = match module_class_of(st, predef) {
        Some(c) => c,
        None => {
            return;
        },
    };
    let ghost st0 = *st;
    let ghost len0 = st0.syms@.len();
    let mut i: usize = 0;
    while i < 8
        invariant
            st0.wf(),
            st0.valid(pc),
            st0.valid(predef),
            boxes@.len() == 8,
            len0 == st0.syms@.len(),
            len0 + 32 < u32::MAX,
            i <= 8,
            boxes_progress(st0, *st, pc, predef, boxes@, 2 * i),
        decreases 8 - i,
    {
        let (jvm, to_box, from_box) = box_entry(i);
        let prim = primitive_of(jvm);
        proof {
            lemma_box_index(i as int);
            lemma_missing_bounds(st0, pc, (2 * i) as nat);
        }
        let wrapper = boxes[i];
        let ghost s_a = *st;
        add_conversion(st, pc, predef, to_box, true, prim, wrapper);
        let ghost s_b = *st;
        proof {
            lemma_boxes_step(st0, s_a, s_b, pc, predef, boxes@, (2 * i) as int);
        }
        add_conversion(st, pc, predef, from_box, false, prim, wrapper);
        proof {
            lemma_boxes_step(st0, s_b, *st, pc, predef, boxes@, (2 * i + 1) as int);
        }
        i += 1;
    }
    proof {
        assert(16 == 2 * 8);
    }
    st.enter_in_current("Integer", boxes[4]);
    st.enter_in_current("Character", boxes[3]);
    st.enter_in_current("Number", number);
    proof {
        assert(st.scope_view() =~= st0.scope_view() + conversion_entries(st0, pc, 16) + seq![
            ("Integer"@, boxes@[4]),
            ("Character"@, boxes@[3]),
            ("Number"@, number),
        ]);
    }
}

/// Once `Predef`'s class has every conversion, installing them again adds
/// none: no symbol and no conversion entry in the scope.
pub proof fn lemma_install_adds_nothing_twice(st: SymbolTable, pc: SymbolId)
    requires
        forall|k: int| 0 <= k < 16 ==> declares_method_named(st, pc, #[trigger] conversion_name(k)),
    ensures
        missing_conversions(st, pc, 16) == Seq::<int>::empty(),
        conversion_entries(st, pc, 16) == Seq::<(Seq<char>, SymbolId)>::empty(),
{
    lemma_none_missing(st, pc, 16);
    assert(conversion_entries(st, pc, 16) =~= Seq::<(Seq<char>, SymbolId)>::empty());
}

proof fn lemma_none_missing(st: SymbolTable, pc: SymbolId, n: nat)
    requires
        n <= 16,
        forall|k: int| 0 <= k < 16 ==> declares_method_named(st, pc, #[trigger] conversion_name(k)),
    ensures
        missing_conversions(st, pc, n) == Seq::<int>::empty(),
    decreases n,
{
    if n > 0 {
        lemma_none_missing(st, pc, (n - 1) as nat);
        assert(declares_method_named(st, pc, conversion_name(n - 1)));
    }
}

} // verus!
