//! The value-class members the hand-written prelude never declared:
//! `Boolean`'s three *bitwise* operators and the numeric `unary_+`.
//!
//! `p & q` evaluates `q` unconditionally; `p && q` does not, so the three are
//! their own intrinsics over both operands. `unary_+` is the identity on the
//! widened receiver: `Int` for `Byte`/`Short`/`Char`/`Int`, and the
//! receiver's own type for `Long`/`Float`/`Double`.
use vstd::prelude::*;
use vstd::string::*;

use crate::prelude::{is_prelude_method, prelude_method};
use crate::prelude_bsops::{bin_name, bin_of_name, declares_entry, lemma_names_injective, spec_bin_name, spec_un_name, un_name};
use crate::symbols::{adds_owned, lemma_adds_owned_trans, lemma_declares_kept, lemma_grows_trans, prims_distinct, BinOp, Intrinsic, Prim, Symbol, SymbolId, SymKind, SymbolTable, Ty, UnOp};

verus! {

/// `Boolean`'s bitwise operators.
pub open spec fn bool_entry(op: BinOp) -> Option<Intrinsic> {
    if op == BinOp::And || op == BinOp::Or || op == BinOp::Xor {
        Some(Intrinsic::BoolBin(op))
    } else {
        None
    }
}

/// `unary_+` on a numeric type: its result after nsc's widening, and its
/// intrinsic (the receiver's own unary family with a `+` payload).
pub open spec fn plus_entry(p: Prim) -> Option<(Prim, Intrinsic)> {
    match p {
        Prim::Boolean => None,
        Prim::Byte => Some((Prim::Int, Intrinsic::IntUn(UnOp::Plus))),
        Prim::Short => Some((Prim::Int, Intrinsic::IntUn(UnOp::Plus))),
        Prim::Char => Some((Prim::Int, Intrinsic::IntUn(UnOp::Plus))),
        Prim::Int => Some((Prim::Int, Intrinsic::IntUn(UnOp::Plus))),
        Prim::Long => Some((Prim::Long, Intrinsic::LongUn(UnOp::Plus))),
        Prim::Float => Some((Prim::Float, Intrinsic::FloatUn(UnOp::Plus))),
        Prim::Double => Some((Prim::Double, Intrinsic::DoubleUn(UnOp::Plus))),
    }
}

/// A symbol this module installs.
pub open spec fn is_boolbit_symbol(st: SymbolTable, s: Symbol) -> bool {
    ||| exists|op: BinOp| #[trigger] bool_entry(op) matches Some(ic) && is_prelude_method(
        s,
        st.boolean_sym,
        spec_bin_name(op),
        seq![Ty::Prim(Prim::Boolean)],
        Ty::Prim(Prim::Boolean),
        ic,
    )
    ||| exists|p: Prim| #[trigger] plus_entry(p) matches Some(e) && is_prelude_method(
        s,
        st.prim_class(p),
        spec_un_name(UnOp::Plus),
        Seq::empty(),
        Ty::Prim(e.0),
        e.1,
    )
}

pub open spec fn boolbit_complete(st: SymbolTable) -> bool {
    &&& forall|op: BinOp| (#[trigger] bool_entry(op)) is Some ==> st.declares_method_on(
        st.boolean_sym,
        spec_bin_name(op),
        Prim::Boolean,
    )
    &&& forall|p: Prim| (#[trigger] plus_entry(p)) is Some ==> st.declares_method_nullary(
        st.prim_class(p),
        spec_un_name(UnOp::Plus),
    )
}

pub open spec fn new_symbols_from_boolbit(st: SymbolTable, base: int) -> bool {
    forall|i: int| base <= i < st.syms@.len() ==> is_boolbit_symbol(st, #[trigger] st.syms@[i])
}

/// Already declared with exactly this parameter type?
pub fn has_member(st: &SymbolTable, owner: SymbolId, name: &str, arg: Prim) -> (r: bool)
    requires
        st.wf(),
        st.valid(owner),
    ensures
        r == st.declares_method_on(owner, name@, arg),
{
    let want = name.to_owned();
    let members = &st.get(owner).members;
    let mut j: usize = 0;
    while j < members.len()
        invariant
            st.wf(),
            st.valid(owner),
            members@ == st.sym(owner).members@,
            want@ == name@,
            j <= members.len(),
            forall|k: int| 0 <= k < j ==> {
                let m = st.sym(#[trigger] st.sym(owner).members@[k]);
                !(m.name@ == name@ && m.kind == SymKind::Method && SymbolTable::first_clause(m.ty) == Some(
                    seq![Ty::Prim(arg)],
                ))
            },
        decreases members.len() - j,
    {
        let m = members[j];
        assert(st.valid(st.sym(owner).members@[j as int]));
        let s = st.get(m);
        let hit = s.name == want && s.kind == SymKind::Method && match &s.ty {
            Ty::Method { paramss, .. } => paramss.len() > 0 && paramss[0].len() == 1 && match &paramss[0][0] {
                Ty::Prim(p) => *p == arg,
                _ => false,
            },
            _ => false,
        };
        proof {
            if !hit && st.sym(m).name@ == name@ && st.sym(m).kind == SymKind::Method {
                match st.sym(m).ty {
                    Ty::Method { paramss, .. } => {
                        if paramss@.len() > 0 {
                            assert(paramss@[0]@ != seq![Ty::Prim(arg)] || paramss@[0]@[0] == Ty::Prim(arg));
                        }
                    },
                    _ => {},
                }
            }
            if hit {
                match st.sym(m).ty {
                    Ty::Method { paramss, .. } => {
                        assert(paramss@[0]@ =~= seq![Ty::Prim(arg)]);
                    },
                    _ => {},
                }
            }
        }
        if hit {
            return true;
        }
        j += 1;
    }
    false
}

/// Already declared as a method taking no parameters?
pub fn has_nullary(st: &SymbolTable, owner: SymbolId, name: &str) -> (r: bool)
    requires
        st.wf(),
        st.valid(owner),
    ensures
        r == st.declares_method_nullary(owner, name@),
{
    let want = name.to_owned();
    let members = &st.get(owner).members;
    let mut j: usize = 0;
    while j < members.len()
        invariant
            st.wf(),
            st.valid(owner),
            members@ == st.sym(owner).members@,
            want@ == name@,
            j <= members.len(),
            forall|k: int| 0 <= k < j ==> {
                let m = st.sym(#[trigger] st.sym(owner).members@[k]);
                !(m.name@ == name@ && m.kind == SymKind::Method && match m.ty {
                    Ty::Method { paramss, .. } => paramss@.len() == 0 || paramss@[0]@.len() == 0,
                    _ => false,
                })
            },
        decreases members.len() - j,
    {
        let m = members[j];
        assert(st.valid(st.sym(owner).members@[j as int]));
        let s = st.get(m);
        let hit = s.name == want && s.kind == SymKind::Method && match &s.ty {
            Ty::Method { paramss, .. } => paramss.len() == 0 || paramss[0].len() == 0,
            _ => false,
        };
        if hit {
            return true;
        }
        j += 1;
    }
    false
}

fn plus_row(st: &SymbolTable, i: usize) -> (r: (SymbolId, Prim, Prim, Intrinsic))
    requires
        i < 7,
    ensures
        plus_entry(r.1) == Some((r.2, r.3)),
        r.0 == st.prim_class(r.1),
        r.1 == plus_prim(i as int),
{
    if i == 0 {
        (st.byte_sym, Prim::Byte, Prim::Int, Intrinsic::IntUn(UnOp::Plus))
    } else if i == 1 {
        (st.short_sym, Prim::Short, Prim::Int, Intrinsic::IntUn(UnOp::Plus))
    } else if i == 2 {
        (st.char_sym, Prim::Char, Prim::Int, Intrinsic::IntUn(UnOp::Plus))
    } else if i == 3 {
        (st.int_sym, Prim::Int, Prim::Int, Intrinsic::IntUn(UnOp::Plus))
    } else if i == 4 {
        (st.long_sym, Prim::Long, Prim::Long, Intrinsic::LongUn(UnOp::Plus))
    } else if i == 5 {
        (st.float_sym, Prim::Float, Prim::Float, Intrinsic::FloatUn(UnOp::Plus))
    } else {
        (st.double_sym, Prim::Double, Prim::Double, Intrinsic::DoubleUn(UnOp::Plus))
    }
}

pub open spec fn plus_prim(i: int) -> Prim {
    if i == 0 {
        Prim::Byte
    } else if i == 1 {
        Prim::Short
    } else if i == 2 {
        Prim::Char
    } else if i == 3 {
        Prim::Int
    } else if i == 4 {
        Prim::Long
    } else if i == 5 {
        Prim::Float
    } else {
        Prim::Double
    }
}

proof fn lemma_boolbit_symbols_kept(a: SymbolTable, b: SymbolTable, base: int)
    requires
        0 <= base,
        b.grows_from(a),
        new_symbols_from_boolbit(a, base),
    ensures
        forall|i: int| base <= i < a.syms@.len() ==> is_boolbit_symbol(b, #[trigger] b.syms@[i]),
{
    assert forall|i: int| base <= i < a.syms@.len() implies is_boolbit_symbol(b, #[trigger] b.syms@[i]) by {
        assert(b.syms@[i].same_except_members(a.syms@[i]));
        assert(is_boolbit_symbol(a, a.syms@[i]));
    }
}

/// The `j`-th of `&`, `|`, `^`.
pub open spec fn bool_op(j: int) -> BinOp {
    if j == 0 {
        BinOp::And
    } else if j == 1 {
        BinOp::Or
    } else {
        BinOp::Xor
    }
}

/// How many of the first `k` of `&`, `|`, `^` Boolean lacks.
pub open spec fn bool_missing(st: SymbolTable, k: int) -> int
    decreases k,
{
    if k <= 0 {
        0
    } else {
        bool_missing(st, k - 1) + if st.declares_method_on(st.boolean_sym, spec_bin_name(bool_op(k - 1)), Prim::Boolean) {
            0int
        } else {
            1int
        }
    }
}

/// How many of the first `i` numeric classes lack `unary_+`.
pub open spec fn plus_missing(st: SymbolTable, i: int) -> int
    decreases i,
{
    if i <= 0 {
        0
    } else {
        plus_missing(st, i - 1) + if st.declares_method_nullary(st.prim_class(plus_prim(i - 1)), spec_un_name(UnOp::Plus)) {
            0int
        } else {
            1int
        }
    }
}

/// `m` is the `&`, `|` or `^` (one of the first `k`) this module adds to
/// `Boolean`.
pub open spec fn bool_added(st: SymbolTable, m: SymbolId, k: int) -> bool {
    exists|t: int| 0 <= t < k && is_prelude_method(
        st.sym(m),
        st.boolean_sym,
        spec_bin_name(#[trigger] bool_op(t)),
        seq![Ty::Prim(Prim::Boolean)],
        Ty::Prim(Prim::Boolean),
        Intrinsic::BoolBin(bool_op(t)),
    )
}

/// `m` is the `unary_+` (of one of the first `i` numeric classes) this
/// module adds.
pub open spec fn plus_added(st: SymbolTable, m: SymbolId, i: int) -> bool {
    exists|t: int| 0 <= t < i && (#[trigger] plus_entry(plus_prim(t))) is Some && is_prelude_method(
        st.sym(m),
        st.prim_class(plus_prim(t)),
        spec_un_name(UnOp::Plus),
        Seq::empty(),
        Ty::Prim(plus_entry(plus_prim(t)).unwrap().0),
        plus_entry(plus_prim(t)).unwrap().1,
    )
}

/// `owner` has exactly one member named `name` taking the one parameter
/// `(arg)`, and it is the prelude method `name(arg): ret` emitted as `ic`.
pub open spec fn declares_once(st: SymbolTable, owner: SymbolId, name: Seq<char>, arg: Prim, ret: Prim, ic: Intrinsic) -> bool {
    exists|j: int|
        0 <= j < st.sym(owner).members@.len() && is_prelude_method(
            st.sym(#[trigger] st.sym(owner).members@[j]),
            owner,
            name,
            seq![Ty::Prim(arg)],
            Ty::Prim(ret),
            ic,
        ) && forall|j2: int|
            0 <= j2 < st.sym(owner).members@.len() && {
                let m = st.sym(#[trigger] st.sym(owner).members@[j2]);
                &&& m.name@ == name
                &&& m.kind == SymKind::Method
                &&& SymbolTable::first_clause(m.ty) == Some(seq![Ty::Prim(arg)])
            } ==> j2 == j
}

/// What `install` leaves behind: each of `&`, `|`, `^` that `Boolean` lacked
/// is there once, as its own intrinsic; with the value classes distinct, each
/// missing `unary_+` is on its own class with its entry's result and
/// intrinsic.
pub open spec fn boolbit_installed(o: SymbolTable, st: SymbolTable) -> bool {
    &&& forall|op: BinOp| #[trigger] bool_entry(op) matches Some(ic) ==> !o.declares_method_on(
        o.boolean_sym,
        spec_bin_name(op),
        Prim::Boolean,
    ) ==> declares_once(st, st.boolean_sym, spec_bin_name(op), Prim::Boolean, Prim::Boolean, ic)
    &&& prims_distinct(o) ==> forall|p: Prim| #[trigger] plus_entry(p) matches Some(e) ==> !o.declares_method_nullary(
        o.prim_class(p),
        spec_un_name(UnOp::Plus),
    ) ==> declares_entry(st, st.prim_class(p), spec_un_name(UnOp::Plus), Seq::empty(), Ty::Prim(e.0), e.1)
}

/// Once `Boolean` has exactly one `&` (or `|`, `^`), a later call that adds
/// nothing to any member list leaves it exactly one.
pub proof fn lemma_declares_once_kept(a: SymbolTable, b: SymbolTable, op: BinOp)
    requires
        a.wf(),
        b.grows_from(a),
        forall|i: int| 0 <= i < a.syms@.len() ==> (#[trigger] b.syms@[i]).members@ == a.syms@[i].members@,
        bool_entry(op) is Some,
        declares_once(a, a.boolean_sym, spec_bin_name(op), Prim::Boolean, Prim::Boolean, bool_entry(op).unwrap()),
    ensures
        declares_once(b, b.boolean_sym, spec_bin_name(op), Prim::Boolean, Prim::Boolean, bool_entry(op).unwrap()),
{
    let bs = a.boolean_sym;
    let ms = a.sym(bs).members@;
    assert(b.sym(bs).members@ == ms);
    let j = choose|j: int|
        0 <= j < ms.len() && is_prelude_method(
            a.sym(#[trigger] ms[j]),
            bs,
            spec_bin_name(op),
            seq![Ty::Prim(Prim::Boolean)],
            Ty::Prim(Prim::Boolean),
            bool_entry(op).unwrap(),
        ) && forall|j2: int|
            0 <= j2 < ms.len() && {
                let m = a.sym(#[trigger] ms[j2]);
                &&& m.name@ == spec_bin_name(op)
                &&& m.kind == SymKind::Method
                &&& SymbolTable::first_clause(m.ty) == Some(seq![Ty::Prim(Prim::Boolean)])
            } ==> j2 == j;
    assert(a.valid(ms[j]));
    assert(b.syms@[ms[j].0 as int].same_except_members(a.syms@[ms[j].0 as int]));
    assert forall|j2: int|
        0 <= j2 < ms.len() && {
            let m = b.sym(#[trigger] ms[j2]);
            &&& m.name@ == spec_bin_name(op)
            &&& m.kind == SymKind::Method
            &&& SymbolTable::first_clause(m.ty) == Some(seq![Ty::Prim(Prim::Boolean)])
        } implies j2 == j by {
        assert(a.valid(ms[j2]));
        assert(b.syms@[ms[j2].0 as int].same_except_members(a.syms@[ms[j2].0 as int]));
    }
}

/// Of the members appended since `o` up to `upto`'s lengths, each is one of
/// the first `k` Boolean operators (read in `x`).
pub open spec fn appended_bool(o: SymbolTable, upto: SymbolTable, x: SymbolTable, k: int) -> bool {
    forall|c: int, j: int|
        0 <= c < o.syms@.len() && o.syms@[c].members@.len() <= j < upto.syms@[c].members@.len()
            ==> bool_added(x, #[trigger] x.syms@[c].members@[j], k)
}

/// Of the members appended since `lo`, each is the `unary_+` of one of the
/// first `i` numeric classes.
pub open spec fn appended_plus(o: SymbolTable, lo: SymbolTable, x: SymbolTable, i: int) -> bool {
    forall|c: int, j: int|
        0 <= c < o.syms@.len() && lo.syms@[c].members@.len() <= j < x.syms@[c].members@.len()
            ==> plus_added(x, #[trigger] x.syms@[c].members@[j], i)
}

/// The members appended to `Boolean` since `o`, up to `upto`'s length, have
/// different names.
pub open spec fn bool_names_distinct(o: SymbolTable, upto: SymbolTable, x: SymbolTable) -> bool {
    let b = o.boolean_sym;
    forall|j1: int, j2: int|
        #![trigger x.sym(b).members@[j1], x.sym(b).members@[j2]]
        o.sym(b).members@.len() <= j1 < j2 < upto.sym(b).members@.len()
            ==> x.sym(x.sym(b).members@[j1]).name@ != x.sym(x.sym(b).members@[j2]).name@
}

proof fn lemma_bool_widen(o: SymbolTable, upto: SymbolTable, x: SymbolTable, k: int)
    requires
        appended_bool(o, upto, x, k),
    ensures
        appended_bool(o, upto, x, k + 1),
{
    assert forall|c: int, j: int|
        0 <= c < o.syms@.len() && o.syms@[c].members@.len() <= j < upto.syms@[c].members@.len()
            implies bool_added(x, #[trigger] x.syms@[c].members@[j], k + 1) by {
        let m = x.syms@[c].members@[j];
        let t = choose|t: int| 0 <= t < k && is_prelude_method(
            x.sym(m),
            x.boolean_sym,
            spec_bin_name(#[trigger] bool_op(t)),
            seq![Ty::Prim(Prim::Boolean)],
            Ty::Prim(Prim::Boolean),
            Intrinsic::BoolBin(bool_op(t)),
        );
        assert(bool_op(t) == bool_op(t));
    }
}

proof fn lemma_plus_widen(o: SymbolTable, lo: SymbolTable, x: SymbolTable, i: int)
    requires
        appended_plus(o, lo, x, i),
    ensures
        appended_plus(o, lo, x, i + 1),
{
    assert forall|c: int, j: int|
        0 <= c < o.syms@.len() && lo.syms@[c].members@.len() <= j < x.syms@[c].members@.len()
            implies plus_added(x, #[trigger] x.syms@[c].members@[j], i + 1) by {
        let m = x.syms@[c].members@[j];
        let t = choose|t: int| 0 <= t < i && (#[trigger] plus_entry(plus_prim(t))) is Some && is_prelude_method(
            x.sym(m),
            x.prim_class(plus_prim(t)),
            spec_un_name(UnOp::Plus),
            Seq::empty(),
            Ty::Prim(plus_entry(plus_prim(t)).unwrap().0),
            plus_entry(plus_prim(t)).unwrap().1,
        );
        assert(plus_entry(plus_prim(t)) is Some);
    }
}

/// A symbol's own fields, read in a grown table, are as they were.
proof fn lemma_prelude_method_kept(a: SymbolTable, b: SymbolTable, m: SymbolId, owner: SymbolId, name: Seq<char>, params: Seq<Ty>, ret: Ty, ic: Intrinsic)
    requires
        b.grows_from(a),
        a.valid(m),
        is_prelude_method(a.sym(m), owner, name, params, ret, ic),
    ensures
        is_prelude_method(b.sym(m), owner, name, params, ret, ic),
        b.sym(m).name@ == a.sym(m).name@,
{
    assert(b.syms@[m.0 as int].same_except_members(a.syms@[m.0 as int]));
}

proof fn lemma_bool_step(o: SymbolTable, before: SymbolTable, st: SymbolTable, k: int, id: SymbolId)
    requires
        o.wf(),
        before.wf(),
        before.grows_from(o),
        st.grows_from(before),
        0 <= k < 3,
        id.0 == before.syms@.len(),
        is_prelude_method(
            st.sym(id),
            st.boolean_sym,
            spec_bin_name(bool_op(k)),
            seq![Ty::Prim(Prim::Boolean)],
            Ty::Prim(Prim::Boolean),
            Intrinsic::BoolBin(bool_op(k)),
        ),
        st.sym(o.boolean_sym).members@ == before.sym(o.boolean_sym).members@.push(id),
        forall|i: int| 0 <= i < before.syms@.len() && i != o.boolean_sym.0 ==>
            (#[trigger] st.syms@[i]).members@ == before.syms@[i].members@,
        appended_bool(o, before, before, k),
        bool_names_distinct(o, before, before),
    ensures
        appended_bool(o, st, st, k + 1),
        bool_names_distinct(o, st, st),
{
    let b = o.boolean_sym;
    lemma_names_injective();
    assert forall|c: int, j: int|
        0 <= c < o.syms@.len() && o.syms@[c].members@.len() <= j < st.syms@[c].members@.len()
            implies bool_added(st, #[trigger] st.syms@[c].members@[j], k + 1) by {
        let m = st.syms@[c].members@[j];
        if j < before.syms@[c].members@.len() {
            assert(before.syms@[c].members@.is_prefix_of(st.syms@[c].members@));
            assert(before.syms@[c].members@[j] == m);
            assert(bool_added(before, m, k));
            assert(before.valid(m));
            let t = choose|t: int| 0 <= t < k && is_prelude_method(
                before.sym(m),
                before.boolean_sym,
                spec_bin_name(#[trigger] bool_op(t)),
                seq![Ty::Prim(Prim::Boolean)],
                Ty::Prim(Prim::Boolean),
                Intrinsic::BoolBin(bool_op(t)),
            );
            lemma_prelude_method_kept(before, st, m, b, spec_bin_name(bool_op(t)), seq![Ty::Prim(Prim::Boolean)],
                Ty::Prim(Prim::Boolean), Intrinsic::BoolBin(bool_op(t)));
        } else {
            assert(c == b.0);
            assert(m == id);
            assert(bool_op(k) == bool_op(k));
        }
    }
    assert forall|j1: int, j2: int|
        #![trigger st.sym(b).members@[j1], st.sym(b).members@[j2]]
        o.sym(b).members@.len() <= j1 < j2 < st.sym(b).members@.len()
            implies st.sym(st.sym(b).members@[j1]).name@ != st.sym(st.sym(b).members@[j2]).name@ by {
        let bm = before.sym(b).members@;
        let m1 = st.sym(b).members@[j1];
        let m2 = st.sym(b).members@[j2];
        assert(bm[j1] == m1);
        assert(before.valid(m1));
        assert(st.syms@[m1.0 as int].same_except_members(before.syms@[m1.0 as int]));
        if j2 < bm.len() {
            assert(bm[j2] == m2);
            assert(before.valid(m2));
            assert(st.syms@[m2.0 as int].same_except_members(before.syms@[m2.0 as int]));
            assert(before.sym(bm[j1]).name@ != before.sym(bm[j2]).name@);
        } else {
            assert(m2 == id);
            assert(bool_added(before, before.syms@[b.0 as int].members@[j1], k));
            let t = choose|t: int| 0 <= t < k && is_prelude_method(
                before.sym(m1),
                before.boolean_sym,
                spec_bin_name(#[trigger] bool_op(t)),
                seq![Ty::Prim(Prim::Boolean)],
                Ty::Prim(Prim::Boolean),
                Intrinsic::BoolBin(bool_op(t)),
            );
            assert(bool_op(t) != bool_op(k));
            assert(bin_of_name(spec_bin_name(bool_op(t))) != bin_of_name(spec_bin_name(bool_op(k))));
        }
    }
}

proof fn lemma_plus_step(o: SymbolTable, mid: SymbolTable, before: SymbolTable, st: SymbolTable, i: int, id: SymbolId)
    requires
        o.wf(),
        before.wf(),
        mid.grows_from(o),
        before.grows_from(mid),
        before.grows_from(o),
        st.grows_from(before),
        0 <= i < 7,
        id.0 == before.syms@.len(),
        plus_entry(plus_prim(i)) is Some,
        is_prelude_method(
            st.sym(id),
            st.prim_class(plus_prim(i)),
            spec_un_name(UnOp::Plus),
            Seq::empty(),
            Ty::Prim(plus_entry(plus_prim(i)).unwrap().0),
            plus_entry(plus_prim(i)).unwrap().1,
        ),
        st.sym(o.prim_class(plus_prim(i))).members@ == before.sym(o.prim_class(plus_prim(i))).members@.push(id),
        forall|q: int| 0 <= q < before.syms@.len() && q != o.prim_class(plus_prim(i)).0 ==>
            (#[trigger] st.syms@[q]).members@ == before.syms@[q].members@,
        appended_bool(o, mid, before, 3),
        appended_plus(o, mid, before, i),
        bool_names_distinct(o, mid, before),
    ensures
        appended_bool(o, mid, st, 3),
        appended_plus(o, mid, st, i + 1),
        bool_names_distinct(o, mid, st),
{
    let b = o.boolean_sym;
    let e = plus_entry(plus_prim(i)).unwrap();
    assert forall|c: int, j: int|
        0 <= c < o.syms@.len() && o.syms@[c].members@.len() <= j < mid.syms@[c].members@.len()
            implies bool_added(st, #[trigger] st.syms@[c].members@[j], 3) by {
        let m = st.syms@[c].members@[j];
        assert(mid.syms@[c].members@.is_prefix_of(before.syms@[c].members@));
        assert(before.syms@[c].members@.is_prefix_of(st.syms@[c].members@));
        assert(before.syms@[c].members@[j] == m);
        assert(bool_added(before, m, 3));
        assert(before.valid(m));
        let t = choose|t: int| 0 <= t < 3 && is_prelude_method(
            before.sym(m),
            before.boolean_sym,
            spec_bin_name(#[trigger] bool_op(t)),
            seq![Ty::Prim(Prim::Boolean)],
            Ty::Prim(Prim::Boolean),
            Intrinsic::BoolBin(bool_op(t)),
        );
        lemma_prelude_method_kept(before, st, m, b, spec_bin_name(bool_op(t)), seq![Ty::Prim(Prim::Boolean)],
            Ty::Prim(Prim::Boolean), Intrinsic::BoolBin(bool_op(t)));
    }
    assert forall|c: int, j: int|
        0 <= c < o.syms@.len() && mid.syms@[c].members@.len() <= j < st.syms@[c].members@.len()
            implies plus_added(st, #[trigger] st.syms@[c].members@[j], i + 1) by {
        let m = st.syms@[c].members@[j];
        if j < before.syms@[c].members@.len() {
            assert(before.syms@[c].members@.is_prefix_of(st.syms@[c].members@));
            assert(before.syms@[c].members@[j] == m);
            assert(plus_added(before, m, i));
            assert(before.valid(m));
            let t = choose|t: int| 0 <= t < i && (#[trigger] plus_entry(plus_prim(t))) is Some && is_prelude_method(
                before.sym(m),
                before.prim_class(plus_prim(t)),
                spec_un_name(UnOp::Plus),
                Seq::empty(),
                Ty::Prim(plus_entry(plus_prim(t)).unwrap().0),
                plus_entry(plus_prim(t)).unwrap().1,
            );
            let e2 = plus_entry(plus_prim(t)).unwrap();
            lemma_prelude_method_kept(before, st, m, before.prim_class(plus_prim(t)), spec_un_name(UnOp::Plus), Seq::empty(),
                Ty::Prim(e2.0), e2.1);
        } else {
            assert(m == id);
            assert(plus_entry(plus_prim(i)) is Some);
        }
    }
    assert forall|j1: int, j2: int|
        #![trigger st.sym(b).members@[j1], st.sym(b).members@[j2]]
        o.sym(b).members@.len() <= j1 < j2 < mid.sym(b).members@.len()
            implies st.sym(st.sym(b).members@[j1]).name@ != st.sym(st.sym(b).members@[j2]).name@ by {
        let bm = before.sym(b).members@;
        assert(mid.sym(b).members@.is_prefix_of(bm));
        assert(bm.is_prefix_of(st.sym(b).members@));
        let m1 = st.sym(b).members@[j1];
        let m2 = st.sym(b).members@[j2];
        assert(bm[j1] == m1);
        assert(bm[j2] == m2);
        assert(before.valid(m1));
        assert(before.valid(m2));
        assert(st.syms@[m1.0 as int].same_except_members(before.syms@[m1.0 as int]));
        assert(st.syms@[m2.0 as int].same_except_members(before.syms@[m2.0 as int]));
        assert(before.sym(bm[j1]).name@ != before.sym(bm[j2]).name@);
    }
}

#[verifier::rlimit(50)]
#[verifier::spinoff_prover]
proof fn lemma_bool_once(o: SymbolTable, mid: SymbolTable, st: SymbolTable, op: BinOp)
    requires
        o.wf(),
        mid.wf(),
        st.wf(),
        mid.grows_from(o),
        st.grows_from(mid),
        st.grows_from(o),
        adds_owned(o, st),
        boolbit_complete(st),
        appended_bool(o, mid, st, 3),
        appended_plus(o, mid, st, 7),
        bool_names_distinct(o, mid, st),
    ensures
        bool_entry(op) is Some && !o.declares_method_on(o.boolean_sym, spec_bin_name(op), Prim::Boolean) ==> declares_once(
            st,
            st.boolean_sym,
            spec_bin_name(op),
            Prim::Boolean,
            Prim::Boolean,
            bool_entry(op).unwrap(),
        ),
{
    let b = o.boolean_sym;
    lemma_names_injective();
    if bool_entry(op) is Some && !o.declares_method_on(b, spec_bin_name(op), Prim::Boolean) {
        let ic = bool_entry(op).unwrap();
        let ms = st.sym(b).members@;
        let om = o.sym(b).members@;
        assert(om.is_prefix_of(ms));
        assert(mid.sym(b).members@.is_prefix_of(ms));
        assert(st.declares_method_on(b, spec_bin_name(op), Prim::Boolean));
        let j = choose|j: int|
            0 <= j < ms.len() && {
                let m = st.sym(#[trigger] ms[j]);
                &&& m.name@ == spec_bin_name(op)
                &&& m.kind == SymKind::Method
                &&& SymbolTable::first_clause(m.ty) == Some(seq![Ty::Prim(Prim::Boolean)])
            };
        assert forall|j2: int|
            0 <= j2 < ms.len() && {
                let m = st.sym(#[trigger] ms[j2]);
                &&& m.name@ == spec_bin_name(op)
                &&& m.kind == SymKind::Method
                &&& SymbolTable::first_clause(m.ty) == Some(seq![Ty::Prim(Prim::Boolean)])
            } implies om.len() <= j2 < mid.sym(b).members@.len() by {
            let m = ms[j2];
            if j2 < om.len() {
                assert(om[j2] == m);
                assert(o.valid(m));
                assert(st.syms@[m.0 as int].same_except_members(o.syms@[m.0 as int]));
                assert(o.declares_method_on(b, spec_bin_name(op), Prim::Boolean));
            }
            if j2 >= mid.sym(b).members@.len() {
                assert(plus_added(st, st.syms@[b.0 as int].members@[j2], 7));
            }
        }
        let m = ms[j];
        assert(bool_added(st, st.syms@[b.0 as int].members@[j], 3));
        let t = choose|t: int| 0 <= t < 3 && is_prelude_method(
            st.sym(m),
            st.boolean_sym,
            spec_bin_name(#[trigger] bool_op(t)),
            seq![Ty::Prim(Prim::Boolean)],
            Ty::Prim(Prim::Boolean),
            Intrinsic::BoolBin(bool_op(t)),
        );
        assert(bin_of_name(spec_bin_name(bool_op(t))) == bin_of_name(spec_bin_name(op)));
        assert(bool_op(t) == op);
        assert forall|j2: int|
            0 <= j2 < ms.len() && {
                let m = st.sym(#[trigger] ms[j2]);
                &&& m.name@ == spec_bin_name(op)
                &&& m.kind == SymKind::Method
                &&& SymbolTable::first_clause(m.ty) == Some(seq![Ty::Prim(Prim::Boolean)])
            } implies j2 == j by {
            if j2 < j {
                assert(st.sym(st.sym(b).members@[j2]).name@ != st.sym(st.sym(b).members@[j]).name@);
            } else if j < j2 {
                assert(st.sym(st.sym(b).members@[j]).name@ != st.sym(st.sym(b).members@[j2]).name@);
            }
        }
        assert(is_prelude_method(st.sym(ms[j]), b, spec_bin_name(op), seq![Ty::Prim(Prim::Boolean)], Ty::Prim(Prim::Boolean), ic));
    }
}

proof fn lemma_plus_exact(o: SymbolTable, mid: SymbolTable, st: SymbolTable, p: Prim)
    requires
        o.wf(),
        mid.wf(),
        st.wf(),
        mid.grows_from(o),
        st.grows_from(mid),
        st.grows_from(o),
        adds_owned(o, st),
        boolbit_complete(st),
        appended_bool(o, mid, st, 3),
        appended_plus(o, mid, st, 7),
        bool_names_distinct(o, mid, st),
        prims_distinct(o),
    ensures
        plus_entry(p) is Some && !o.declares_method_nullary(o.prim_class(p), spec_un_name(UnOp::Plus)) ==> declares_entry(
            st,
            st.prim_class(p),
            spec_un_name(UnOp::Plus),
            Seq::empty(),
            Ty::Prim(plus_entry(p).unwrap().0),
            plus_entry(p).unwrap().1,
        ),
{
    if plus_entry(p) is Some && !o.declares_method_nullary(o.prim_class(p), spec_un_name(UnOp::Plus)) {
        let e = plus_entry(p).unwrap();
        let c = o.prim_class(p);
        let ms = st.sym(c).members@;
        let om = o.sym(c).members@;
        assert(om.is_prefix_of(ms));
        assert(st.declares_method_nullary(c, spec_un_name(UnOp::Plus)));
        let j = choose|j: int|
            0 <= j < ms.len() && {
                let m = st.sym(#[trigger] ms[j]);
                &&& m.name@ == spec_un_name(UnOp::Plus)
                &&& m.kind == SymKind::Method
                &&& match m.ty {
                    Ty::Method { paramss, .. } => paramss@.len() == 0 || paramss@[0]@.len() == 0,
                    _ => false,
                }
            };
        let m = ms[j];
        if j < om.len() {
            assert(om[j] == m);
            assert(o.valid(m));
            assert(st.syms@[m.0 as int].same_except_members(o.syms@[m.0 as int]));
            assert(o.declares_method_nullary(c, spec_un_name(UnOp::Plus)));
        }
        if j < mid.sym(c).members@.len() {
            assert(bool_added(st, st.syms@[c.0 as int].members@[j], 3));
            let t = choose|t: int| 0 <= t < 3 && is_prelude_method(
                st.sym(m),
                st.boolean_sym,
                spec_bin_name(#[trigger] bool_op(t)),
                seq![Ty::Prim(Prim::Boolean)],
                Ty::Prim(Prim::Boolean),
                Intrinsic::BoolBin(bool_op(t)),
            );
            assert(spec_bin_name(bool_op(t)).len() != spec_un_name(UnOp::Plus).len());
        }
        assert(plus_added(st, st.syms@[c.0 as int].members@[j], 7));
        let t = choose|t: int| 0 <= t < 7 && (#[trigger] plus_entry(plus_prim(t))) is Some && is_prelude_method(
            st.sym(m),
            st.prim_class(plus_prim(t)),
            spec_un_name(UnOp::Plus),
            Seq::empty(),
            Ty::Prim(plus_entry(plus_prim(t)).unwrap().0),
            plus_entry(plus_prim(t)).unwrap().1,
        );
        assert(o.prim_class(plus_prim(t)) == o.prim_class(p));
        assert(plus_prim(t) == p);
        assert(is_prelude_method(st.sym(ms[j]), st.prim_class(p), spec_un_name(UnOp::Plus), Seq::empty(), Ty::Prim(e.0), e.1));
    }
}

proof fn lemma_boolbit_installed(o: SymbolTable, mid: SymbolTable, st: SymbolTable)
    requires
        o.wf(),
        mid.wf(),
        st.wf(),
        mid.grows_from(o),
        st.grows_from(mid),
        st.grows_from(o),
        adds_owned(o, st),
        boolbit_complete(st),
        appended_bool(o, mid, st, 3),
        appended_plus(o, mid, st, 7),
        bool_names_distinct(o, mid, st),
        boolbit_complete(o) ==> st.syms@.len() == o.syms@.len(),
    ensures
        boolbit_installed(o, st),
        boolbit_complete(o) ==> forall|i: int|
            0 <= i < o.syms@.len() ==> (#[trigger] st.syms@[i]).members@ == o.syms@[i].members@,
{
    assert forall|op: BinOp| #[trigger] bool_entry(op) matches Some(ic) ==> !o.declares_method_on(
        o.boolean_sym,
        spec_bin_name(op),
        Prim::Boolean,
    ) ==> declares_once(st, st.boolean_sym, spec_bin_name(op), Prim::Boolean, Prim::Boolean, ic) by {
        lemma_bool_once(o, mid, st, op);
    }
    if prims_distinct(o) {
        assert forall|p: Prim| #[trigger] plus_entry(p) matches Some(e) ==> !o.declares_method_nullary(
            o.prim_class(p),
            spec_un_name(UnOp::Plus),
        ) ==> declares_entry(st, st.prim_class(p), spec_un_name(UnOp::Plus), Seq::empty(), Ty::Prim(e.0), e.1) by {
            lemma_plus_exact(o, mid, st, p);
        }
    }
    if boolbit_complete(o) {
        assert forall|i: int| 0 <= i < o.syms@.len() implies (#[trigger] st.syms@[i]).members@ == o.syms@[i].members@ by {
            let om = o.syms@[i].members@;
            let sm = st.syms@[i].members@;
            assert(om.is_prefix_of(sm));
            if sm.len() > om.len() {
                let m = sm[om.len() as int];
                assert(st.valid(m));
            }
            assert(sm =~= om);
        }
    }
}

/// Install `Boolean.&`, `Boolean.|`, `Boolean.^` and `unary_+` on every
/// numeric class, skipping any already declared: at most one new symbol
/// for each operator that was missing.
pub fn install(st: &mut SymbolTable)
    requires
        old(st).wf(),
        old(st).syms@.len() + 20 < u32::MAX,
    ensures
        final(st).wf(),
        final(st).grows_from(*old(st)),
        boolbit_complete(*final(st)),
        new_symbols_from_boolbit(*final(st), old(st).syms@.len() as int),
        boolbit_complete(*old(st)) ==> final(st).syms@.len() == old(st).syms@.len(),
        final(st).syms@.len() <= old(st).syms@.len() + bool_missing(*old(st), 3) + plus_missing(*old(st), 7),
        adds_owned(*old(st), *final(st)),
        boolbit_installed(*old(st), *final(st)),
        boolbit_complete(*old(st)) ==> forall|i: int|
            0 <= i < old(st).syms@.len() ==> (#[trigger] final(st).syms@[i]).members@ == old(st).syms@[i].members@,
{
    let ghost st0 = *st;
    let b = st.boolean_sym;
    let ops = [BinOp::And, BinOp::Or, BinOp::Xor];
    let mut k: usize = 0;
    while k < 3
        invariant
            st.wf(),
            st0.wf(),
            st.grows_from(st0),
            st0.syms@.len() + 20 < u32::MAX,
            b == st0.boolean_sym,
            ops@ == seq![BinOp::And, BinOp::Or, BinOp::Xor],
            k <= 3,
            st.syms@.len() <= st0.syms@.len() + k,
            st.syms@.len() <= st0.syms@.len() + bool_missing(st0, k as int),
            forall|j: int| 0 <= j < k ==> st.declares_method_on(b, spec_bin_name(#[trigger] ops@[j]), Prim::Boolean),
            new_symbols_from_boolbit(*st, st0.syms@.len() as int),
            boolbit_complete(st0) ==> st.syms@.len() == st0.syms@.len(),
            adds_owned(st0, *st),
            appended_bool(st0, *st, *st, k as int),
            bool_names_distinct(st0, *st, *st),
        decreases 3 - k,
    {
        let op = ops[k];
        let name = bin_name(op);
        let ghost before = *st;
        proof {
            assert(op == bool_op(k as int));
            lemma_declares_kept(st0, *st, b, spec_bin_name(op), Prim::Boolean);
            if boolbit_complete(st0) {
                assert(bool_entry(op) is Some);
            }
        }
        if !has_member(st, b, name, Prim::Boolean) {
            let mut params: Vec<Ty> = Vec::new();
            params.push(Ty::Prim(Prim::Boolean));
            assert(params@ =~= seq![Ty::Prim(Prim::Boolean)]);
            let id = prelude_method(st, b, name, params, Ty::Prim(Prim::Boolean), Intrinsic::BoolBin(op));
            proof {
                let ms = st.sym(b).members@;
                assert(ms[ms.len() - 1] == id);
                match st.sym(id).ty {
                    Ty::Method { paramss, ret } => {
                        let mv = paramss@.map_values(|c: Vec<Ty>| c@);
                        assert(mv == seq![seq![Ty::Prim(Prim::Boolean)]]);
                        assert(mv.len() == 1);
                        assert(mv[0] == paramss@[0]@);
                    },
                    _ => {},
                }
                assert(st.declares_method_on(b, spec_bin_name(op), Prim::Boolean));
                lemma_boolbit_symbols_kept(before, *st, st0.syms@.len() as int);
                let ns = st.syms@[before.syms@.len() as int];
                assert(bool_entry(op) matches Some(ic) && is_prelude_method(
                    ns,
                    st.boolean_sym,
                    spec_bin_name(op),
                    seq![Ty::Prim(Prim::Boolean)],
                    Ty::Prim(Prim::Boolean),
                    ic,
                ));
                lemma_adds_owned_trans(st0, before, *st);
                lemma_bool_step(st0, before, *st, k as int, id);
            }
        }
        proof {
            if st.syms@.len() == before.syms@.len() {
                lemma_bool_widen(st0, *st, *st, k as int);
            }
            lemma_grows_trans(st0, before, *st);
            assert forall|j: int| 0 <= j < k + 1 implies st.declares_method_on(
                b,
                spec_bin_name(#[trigger] ops@[j]),
                Prim::Boolean,
            ) by {
                if j < k {
                    lemma_declares_kept(before, *st, b, spec_bin_name(ops@[j]), Prim::Boolean);
                }
            }
        }
        k += 1;
    }
    let ghost mid = *st;
    let plus = un_name(UnOp::Plus);
    let mut i: usize = 0;
    while i < 7
        invariant
            st.wf(),
            st0.wf(),
            mid.wf(),
            st.grows_from(mid),
            mid.grows_from(st0),
            st0.syms@.len() + 20 < u32::MAX,
            mid.syms@.len() <= st0.syms@.len() + 3,
            plus@ == spec_un_name(UnOp::Plus),
            b == st0.boolean_sym,
            i <= 7,
            st.syms@.len() <= mid.syms@.len() + i,
            mid.syms@.len() <= st0.syms@.len() + bool_missing(st0, 3),
            st.syms@.len() <= mid.syms@.len() + plus_missing(st0, i as int),
            forall|j: int| 0 <= j < 3 ==> mid.declares_method_on(b, spec_bin_name(#[trigger] ops@[j]), Prim::Boolean),
            ops@ == seq![BinOp::And, BinOp::Or, BinOp::Xor],
            forall|j: int| 0 <= j < i ==> st.declares_method_nullary(
                st.prim_class(#[trigger] plus_prim(j)),
                spec_un_name(UnOp::Plus),
            ),
            new_symbols_from_boolbit(*st, st0.syms@.len() as int),
            boolbit_complete(st0) ==> st.syms@.len() == st0.syms@.len(),
            adds_owned(st0, *st),
            appended_bool(st0, mid, *st, 3),
            appended_plus(st0, mid, *st, i as int),
            bool_names_distinct(st0, mid, *st),
        decreases 7 - i,
    {
        let (owner, p, ret, ic) = plus_row(st, i);
        let ghost before = *st;
        proof {
            lemma_grows_trans(st0, mid, *st);
            lemma_declares_kept(st0, *st, st0.prim_class(p), spec_un_name(UnOp::Plus), Prim::Int);
        }
        if !has_nullary(st, owner, plus) {
            let no_params: Vec<Ty> = Vec::new();
            assert(no_params@ =~= Seq::<Ty>::empty());
            let id = prelude_method(st, owner, plus, no_params, Ty::Prim(ret), ic);
            proof {
                let ms = st.sym(owner).members@;
                assert(ms[ms.len() - 1] == id);
                match st.sym(id).ty {
                    Ty::Method { paramss, ret } => {
                        let mv = paramss@.map_values(|c: Vec<Ty>| c@);
                        assert(mv.len() == 0);
                    },
                    _ => {},
                }
                assert(st.declares_method_nullary(owner, spec_un_name(UnOp::Plus)));
                lemma_boolbit_symbols_kept(before, *st, st0.syms@.len() as int);
                lemma_grows_trans(st0, mid, before);
                lemma_adds_owned_trans(st0, before, *st);
                lemma_plus_step(st0, mid, before, *st, i as int, id);
                let ns = st.syms@[before.syms@.len() as int];
                assert(plus_entry(p) matches Some(e) && is_prelude_method(
                    ns,
                    st.prim_class(p),
                    spec_un_name(UnOp::Plus),
                    Seq::empty(),
                    Ty::Prim(e.0),
                    e.1,
                ));
            }
        }
        proof {
            if st.syms@.len() == before.syms@.len() {
                lemma_plus_widen(st0, mid, *st, i as int);
            }
            lemma_grows_trans(mid, before, *st);
            assert forall|j: int| 0 <= j < i + 1 implies st.declares_method_nullary(
                st.prim_class(#[trigger] plus_prim(j)),
                spec_un_name(UnOp::Plus),
            ) by {
                if j < i {
                    lemma_declares_kept(before, *st, before.prim_class(plus_prim(j)), spec_un_name(UnOp::Plus), Prim::Int);
                }
            }
        }
        i += 1;
    }
    proof {
        lemma_grows_trans(st0, mid, *st);
        assert forall|op: BinOp| (#[trigger] bool_entry(op)) is Some implies st.declares_method_on(
            st.boolean_sym,
            spec_bin_name(op),
            Prim::Boolean,
        ) by {
            let j: int = if op == BinOp::And { 0 } else if op == BinOp::Or { 1 } else { 2 };
            assert(ops@[j] == op);
            lemma_declares_kept(mid, *st, b, spec_bin_name(op), Prim::Boolean);
        }
        assert forall|p: Prim| (#[trigger] plus_entry(p)) is Some implies st.declares_method_nullary(
            st.prim_class(p),
            spec_un_name(UnOp::Plus),
        ) by {
            let j: int = match p {
                Prim::Byte => 0,
                Prim::Short => 1,
                Prim::Char => 2,
                Prim::Int => 3,
                Prim::Long => 4,
                Prim::Float => 5,
                _ => 6,
            };
            assert(plus_prim(j) == p);
        }
        lemma_boolbit_installed(st0, mid, *st);
    }
}

} // verus!
