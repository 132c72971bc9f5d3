//! Type-parameter kinds and primitive bounds taken from a class's pickle.
//!
//! A JVM generic signature writes `trait Monad[F[_]]` as
//! `<F:Ljava/lang/Object;>`: it records how many type parameters a class has,
//! but not the parameters *they* take, nor a bound such as `A <: Int`. The
//! pickle has both; these functions copy them onto the symbols the class-file
//! reader allocated.
use vstd::prelude::*;

use crate::pickle_supply::PickledTParam;
use crate::symbols::{FLAG_CONTRAVARIANT, FLAG_COVARIANT, Prim, SymKind, Symbol, SymbolId, SymbolTable, Ty};
use crate::text::str_eq;

verus! {

/// A type parameter as a pickle declares it.
pub struct SigTParam {
    pub name: String,
    /// Declared variance: positive for `+`, negative for `-`, zero when invariant.
    pub variance: i8,
    pub bounds: SigBounds,
}

/// What a pickled type parameter is bounded by.
pub enum SigBounds {
    /// `F[_]`: the parameter is itself a type constructor over these.
    Poly(Vec<SigTParam>),
    /// Plain lower/upper bounds; the upper one as far as it is read here.
    Bounds(SigUpper),
    /// Anything else.
    Other,
}

/// A pickled upper bound.
pub enum SigUpper {
    /// A reference to the class of this dotted name, applied to `nargs` arguments.
    Ref { sym: String, nargs: usize },
    Other,
}

/// The parameters a pickled type parameter takes itself (none for a proper type).
pub open spec fn inner_params(tp: SigTParam) -> Seq<SigTParam> {
    match tp.bounds {
        SigBounds::Poly(ps) => ps@,
        _ => Seq::empty(),
    }
}

/// How many symbols a kind tree is made of, its root included.
pub open spec fn kind_size(tp: SigTParam) -> nat
    decreases tp, 1nat,
{
    match tp.bounds {
        SigBounds::Poly(ps) => 1 + params_size(ps@),
        _ => 1,
    }
}

/// `kind_size` summed over a list of parameters.
pub open spec fn params_size(ps: Seq<SigTParam>) -> nat
    decreases ps, 0nat,
{
    if ps.len() == 0 {
        0
    } else {
        params_size(ps.drop_last()) + kind_size(ps.last())
    }
}

/// A symbol's type parameters follow the pickle's kind at every depth: a
/// constructor parameter has exactly as many parameters as the pickle says,
/// and each of those agrees in turn.
pub open spec fn kind_agrees(st: SymbolTable, id: SymbolId, tp: SigTParam) -> bool
    decreases tp,
{
    &&& st.valid(id)
    &&& match tp.bounds {
        SigBounds::Poly(ps) => ps@.len() == 0 || {
            let ts = st.sym(id).tparams@;
            &&& ts.len() == ps@.len()
            &&& forall|i: int| #![trigger ps@[i]] 0 <= i < ps@.len() ==> kind_agrees(st, ts[i], ps@[i])
        },
        _ => true,
    }
}

/// Every depth of the pickle's kind is either adopted or contradicted: a
/// constructor parameter has type parameters, and where their number is the
/// pickle's, each of them is settled in turn. Where the numbers differ the
/// symbol's own parameters stand.
pub open spec fn kind_settled(st: SymbolTable, id: SymbolId, tp: SigTParam) -> bool
    decreases tp,
{
    &&& st.valid(id)
    &&& match tp.bounds {
        SigBounds::Poly(ps) => ps@.len() == 0 || {
            let ts = st.sym(id).tparams@;
            &&& ts.len() > 0
            &&& ts.len() == ps@.len() ==> forall|i: int| #![trigger ps@[i]] 0 <= i < ps@.len() ==> kind_settled(st, ts[i], ps@[i])
        },
        _ => true,
    }
}

/// `self` is `o` with symbols appended, member lists extended, and type
/// parameters given to symbols that had none (always fresh ones); every
/// other field of an old symbol is as it was.
pub open spec fn kinds_extend(n: SymbolTable, o: SymbolTable) -> bool {
    &&& n.syms@.len() >= o.syms@.len()
    &&& n.scope == o.scope
    &&& n.same_well_known(o)
    &&& forall|i: int| 0 <= i < o.syms@.len() ==> {
        let a = #[trigger] n.syms@[i];
        let b = o.syms@[i];
        &&& a.same_but_lists(b)
        &&& b.members@.is_prefix_of(a.members@)
        &&& b.tparams@.len() > 0 ==> a.tparams@ == b.tparams@
        &&& b.tparams@.len() == 0 ==> forall|j: int| 0 <= j < a.tparams@.len() ==> (#[trigger] a.tparams@[j]).0 >= o.syms@.len()
    }
}

/// No symbol that had type parameters lost or changed them.
pub open spec fn tparams_grow(n: SymbolTable, o: SymbolTable) -> bool {
    &&& n.syms@.len() >= o.syms@.len()
    &&& forall|i: int| 0 <= i < o.syms@.len() && (#[trigger] o.syms@[i]).tparams@.len() > 0 ==> n.syms@[i].tparams@
        == o.syms@[i].tparams@
}

/// Symbols from slot `from` on are type parameters standing for themselves.
pub open spec fn fresh_type_params(st: SymbolTable, from: int) -> bool {
    forall|i: int| from <= i < st.syms@.len() ==> {
        let s = #[trigger] st.syms@[i];
        &&& s.kind == SymKind::TypeParam
        &&& s.ty == Ty::TypeParam(SymbolId(i as u32))
        &&& s.jvm_name@.len() == 0
    }
}

pub proof fn lemma_params_size_take(ps: Seq<SigTParam>, j: int)
    requires
        0 <= j < ps.len(),
    ensures
        params_size(ps.take(j + 1)) == params_size(ps.take(j)) + kind_size(ps[j]),
{
    assert(ps.take(j + 1).drop_last() =~= ps.take(j));
}

pub proof fn lemma_params_size_bounds(ps: Seq<SigTParam>, j: int)
    requires
        0 <= j <= ps.len(),
    ensures
        params_size(ps) >= params_size(ps.take(j)) + (ps.len() - j),
    decreases ps.len() - j,
{
    if j < ps.len() {
        lemma_params_size_bounds(ps, j + 1);
        lemma_params_size_take(ps, j);
        lemma_kind_size_pos(ps[j]);
    } else {
        assert(ps.take(j) =~= ps);
    }
}

pub proof fn lemma_kind_size_pos(tp: SigTParam)
    ensures
        kind_size(tp) >= 1,
{
}

pub proof fn lemma_kinds_extend_refl(a: SymbolTable)
    ensures
        kinds_extend(a, a),
{
    assert forall|i: int| 0 <= i < a.syms@.len() implies a.syms@[i].members@.is_prefix_of(#[trigger] a.syms@[i].members@) by {}
}

pub proof fn lemma_kinds_extend_trans(a: SymbolTable, b: SymbolTable, c: SymbolTable)
    requires
        kinds_extend(b, a),
        kinds_extend(c, b),
    ensures
        kinds_extend(c, a),
{
    assert forall|i: int| 0 <= i < a.syms@.len() implies {
        let x = #[trigger] c.syms@[i];
        let y = a.syms@[i];
        &&& x.same_but_lists(y)
        &&& y.members@.is_prefix_of(x.members@)
        &&& y.tparams@.len() > 0 ==> x.tparams@ == y.tparams@
        &&& y.tparams@.len() == 0 ==> forall|j: int| 0 <= j < x.tparams@.len() ==> (#[trigger] x.tparams@[j]).0 >= a.syms@.len()
    } by {
        let x = c.syms@[i];
        let m = b.syms@[i];
        let y = a.syms@[i];
        assert(m.members@.is_prefix_of(x.members@));
        assert forall|k: int| 0 <= k < y.members@.len() implies y.members@[k] == x.members@[k] by {
            assert(y.members@[k] == m.members@[k]);
        }
        if y.tparams@.len() == 0 {
            if m.tparams@.len() > 0 {
                assert forall|j: int| 0 <= j < x.tparams@.len() implies (#[trigger] x.tparams@[j]).0 >= a.syms@.len() by {
                    assert(x.tparams@[j] == m.tparams@[j]);
                }
            }
        }
    }
}

/// What `grows_from` allows, `kinds_extend` allows.
pub proof fn lemma_grows_kinds(a: SymbolTable, b: SymbolTable)
    requires
        b.grows_from(a),
    ensures
        kinds_extend(b, a),
{
    assert forall|i: int| 0 <= i < a.syms@.len() implies {
        let x = #[trigger] b.syms@[i];
        let y = a.syms@[i];
        &&& x.same_but_lists(y)
        &&& y.members@.is_prefix_of(x.members@)
        &&& y.tparams@.len() > 0 ==> x.tparams@ == y.tparams@
        &&& y.tparams@.len() == 0 ==> forall|j: int| 0 <= j < x.tparams@.len() ==> (#[trigger] x.tparams@[j]).0 >= a.syms@.len()
    } by {
        assert(b.syms@[i].same_except_members(a.syms@[i]));
    }
}

/// Agreement survives every later step that only gives type parameters to
/// symbols without any.
pub proof fn lemma_agrees_stable(a: SymbolTable, b: SymbolTable, id: SymbolId, tp: SigTParam)
    requires
        tparams_grow(b, a),
        kind_agrees(a, id, tp),
    ensures
        kind_agrees(b, id, tp),
    decreases tp,
{
    if let SigBounds::Poly(ps) = tp.bounds {
        if ps@.len() > 0 {
            let ts = a.sym(id).tparams@;
            assert(ts.len() == ps@.len());
            assert(b.syms@[id.0 as int].tparams@ == a.syms@[id.0 as int].tparams@);
            assert forall|i: int| #![trigger ps@[i]] 0 <= i < ps@.len() implies kind_agrees(b, b.sym(id).tparams@[i], ps@[i]) by {
                assert(kind_agrees(a, ts[i], ps@[i]));
                lemma_agrees_stable(a, b, ts[i], ps@[i]);
            }
        }
    }
}

/// Settledness survives the same steps.
pub proof fn lemma_settled_stable(a: SymbolTable, b: SymbolTable, id: SymbolId, tp: SigTParam)
    requires
        tparams_grow(b, a),
        kind_settled(a, id, tp),
    ensures
        kind_settled(b, id, tp),
    decreases tp,
{
    if let SigBounds::Poly(ps) = tp.bounds {
        if ps@.len() > 0 {
            let ts = a.sym(id).tparams@;
            assert(ts.len() > 0);
            assert(b.syms@[id.0 as int].tparams@ == a.syms@[id.0 as int].tparams@);
            if ts.len() == ps@.len() {
                assert forall|i: int| #![trigger ps@[i]] 0 <= i < ps@.len() implies kind_settled(b, b.sym(id).tparams@[i], ps@[i]) by {
                    assert(kind_settled(a, ts[i], ps@[i]));
                    lemma_settled_stable(a, b, ts[i], ps@[i]);
                }
            }
        }
    }
}

pub proof fn lemma_kinds_extend_grow(a: SymbolTable, b: SymbolTable)
    requires
        kinds_extend(b, a),
    ensures
        tparams_grow(b, a),
{
}

pub proof fn lemma_tparams_grow_trans(a: SymbolTable, b: SymbolTable, c: SymbolTable)
    requires
        tparams_grow(b, a),
        tparams_grow(c, b),
    ensures
        tparams_grow(c, a),
{
    assert forall|i: int| 0 <= i < a.syms@.len() && (#[trigger] a.syms@[i]).tparams@.len() > 0 implies c.syms@[i].tparams@
        == a.syms@[i].tparams@ by {
        assert(b.syms@[i].tparams@ == a.syms@[i].tparams@);
    }
}

/// Agreement is the settled state where no depth was contradicted.
pub proof fn lemma_agrees_settled(st: SymbolTable, id: SymbolId, tp: SigTParam)
    requires
        kind_agrees(st, id, tp),
    ensures
        kind_settled(st, id, tp),
    decreases tp,
{
    if let SigBounds::Poly(ps) = tp.bounds {
        if ps@.len() > 0 {
            let ts = st.sym(id).tparams@;
            assert(ts.len() == ps@.len());
            assert forall|i: int| #![trigger ps@[i]] 0 <= i < ps@.len() implies kind_settled(st, ts[i], ps@[i]) by {
                lemma_agrees_settled(st, ts[i], ps@[i]);
            }
        }
    }
}

/// A slot at or past `a`'s end may change in any way.
pub proof fn lemma_kinds_extend_fresh_slot(a: SymbolTable, b: SymbolTable, c: SymbolTable, x: SymbolId, s: Symbol)
    requires
        kinds_extend(b, a),
        c.one_slot_changed(b, x, s),
        x.0 >= a.syms@.len(),
        x.0 < b.syms@.len(),
    ensures
        kinds_extend(c, a),
{
    assert forall|i: int| 0 <= i < a.syms@.len() implies #[trigger] c.syms@[i] == b.syms@[i] by {}
}

/// Giving a symbol without type parameters a list of fresh ones.
pub proof fn lemma_kinds_extend_new_tparams(a: SymbolTable, b: SymbolTable, c: SymbolTable, id: SymbolId, ts: Vec<SymbolId>)
    requires
        kinds_extend(b, a),
        a.valid(id),
        a.sym(id).tparams@.len() == 0,
        c.one_slot_changed(b, id, Symbol { tparams: ts, ..b.sym(id) }),
        forall|j: int| 0 <= j < ts@.len() ==> (#[trigger] ts@[j]).0 >= a.syms@.len(),
    ensures
        kinds_extend(c, a),
{
    assert forall|i: int| 0 <= i < a.syms@.len() && i != id.0 implies #[trigger] c.syms@[i] == b.syms@[i] by {}
    let n = c.syms@[id.0 as int];
    let m = b.syms@[id.0 as int];
    assert(n.same_but_lists(m));
    assert(n.members@ == m.members@);
}

/// The sign of a pickled variance, as flags.
pub open spec fn spec_variance_flags(variance: i8) -> u64 {
    if variance > 0 {
        FLAG_COVARIANT
    } else if variance < 0 {
        FLAG_CONTRAVARIANT
    } else {
        0
    }
}

/// The variance flags a pickled type parameter carries. A class read from a
/// class file has every type parameter invariant; its pickle is the only
/// place where `+A` survives.
pub fn variance_flags(tp: &SigTParam) -> (f: u64)
    ensures
        f == spec_variance_flags(tp.variance),
{
    if tp.variance > 0 {
        FLAG_COVARIANT
    } else if tp.variance < 0 {
        FLAG_CONTRAVARIANT
    } else {
        0
    }
}

/// A type parameter's own kind arity: `F[_]` is pickled as a polymorphic
/// type over its bounds, so the number of names it quantifies is the arity;
/// a proper type has arity 0.
pub fn tparam_arity(tp: &SigTParam) -> (n: usize)
    ensures
        n == inner_params(*tp).len(),
{
    match &tp.bounds {
        SigBounds::Poly(ps) => ps.len(),
        _ => 0,
    }
}

impl PickledTParam {
    /// A pickled alias's type parameter, by name and kind arity.
    pub fn from_sig(tp: &SigTParam) -> (p: PickledTParam)
        ensures
            p.name@ == tp.name@,
            p.arity == inner_params(*tp).len(),
    {
        PickledTParam { name: tp.name.clone(), arity: tparam_arity(tp) }
    }
}

/// Copy a type parameter's kind from the pickle onto symbol `id`, at every
/// depth: `F[_[_]]` needs the parameter of `F` to be a constructor in turn.
/// Where `id` has no type parameters yet, fresh ones are allocated under it,
/// named and flagged as the pickle says. Where it has as many as the pickle,
/// each is treated in turn; where the two disagree about the number, the
/// symbol's own parameters are left alone.
pub fn set_tparam_kind(st: &mut SymbolTable, id: SymbolId, tp: &SigTParam)
    requires
        old(st).wf(),
        old(st).valid(id),
        old(st).syms@.len() + kind_size(*tp) < u32::MAX,
    ensures
        final(st).wf(),
        kinds_extend(*final(st), *old(st)),
        final(st).syms@.len() < old(st).syms@.len() + kind_size(*tp),
        fresh_type_params(*final(st), old(st).syms@.len() as int),
        kind_settled(*final(st), id, *tp),
        old(st).sym(id).tparams@.len() == 0 ==> kind_agrees(*final(st), id, *tp),
        old(st).sym(id).tparams@.len() == 0 ==> forall|i: int|
            0 <= i < old(st).syms@.len() && i != id.0 ==> (#[trigger] final(st).syms@[i]).tparams@
                == old(st).syms@[i].tparams@,
    decreases tp,
{
    let ghost st0 = *st;
    proof {
        lemma_kinds_extend_refl(st0);
    }
    match &tp.bounds {
        SigBounds::Poly(ps) => {
            let n = ps.len();
            if n == 0 {
                return;
            }
            let ghost was_empty = st0.sym(id).tparams@.len() == 0;
            proof {
                lemma_params_size_bounds(ps@, 0);
                assert(ps@.take(0).len() == 0);
            }
            let existing = st.get(id).tparams.len();
            let inner: Vec<SymbolId>;
            if existing == 0 {
                let mut fresh: Vec<SymbolId> = Vec::new();
                let mut j: usize = 0;
                while j < n
                    invariant
                        st.wf(),
                        st0.valid(id),
                        was_empty,
                        n == ps@.len(),
                        j <= n,
                        st0.syms@.len() + n < u32::MAX,
                        st.syms@.len() == st0.syms@.len() + j,
                        kinds_extend(*st, st0),
                        fresh_type_params(*st, st0.syms@.len() as int),
                        fresh@.len() == j,
                        forall|k: int| 0 <= k < j ==> (#[trigger] fresh@[k]).0 == st0.syms@.len() + k,
                        forall|k: int| 0 <= k < j ==> st.sym(#[trigger] fresh@[k]).tparams@.len() == 0,
                        forall|i: int| 0 <= i < st0.syms@.len() ==> (#[trigger] st.syms@[i]).tparams@ == st0.syms@[i].tparams@,
                    decreases n - j,
                {
                    let p = &ps[j];
                    let flags = variance_flags(p);
                    let ghost before = *st;
                    let x = st.new_symbol(p.name.as_str(), Some(id), SymKind::TypeParam, flags, "");
                    proof {
                        lemma_grows_kinds(before, *st);
                        lemma_kinds_extend_trans(st0, before, *st);
                    }
                    let ghost mid = *st;
                    st.set_ty(x, Ty::TypeParam(x));
                    proof {
                        lemma_kinds_extend_fresh_slot(st0, mid, *st, x, Symbol { ty: Ty::TypeParam(x), ..mid.sym(x) });
                        assert forall|i: int| st0.syms@.len() <= i < st.syms@.len() implies {
                            let s = #[trigger] st.syms@[i];
                            &&& s.kind == SymKind::TypeParam
                            &&& s.ty == Ty::TypeParam(SymbolId(i as u32))
                            &&& s.jvm_name@.len() == 0
                        } by {
                            if i == x.0 {
                                reveal_strlit("");
                                assert(st.syms@[i] == Symbol { ty: Ty::TypeParam(x), ..mid.sym(x) });
                                assert(SymbolId(i as u32) == x);
                            } else {
                                assert(before.syms@[i].kind == SymKind::TypeParam);
                                assert(st.syms@[i] == mid.syms@[i]);
                                assert(mid.syms@[i].same_except_members(before.syms@[i]));
                            }
                        }
                        assert forall|k: int| 0 <= k < j + 1 implies st.sym(#[trigger] fresh@.push(x)[k]).tparams@.len() == 0 by {
                            if k < j {
                                assert(mid.syms@[fresh@[k].0 as int].same_except_members(before.syms@[fresh@[k].0 as int]));
                            }
                        }
                    }
                    fresh.push(x);
                    j += 1;
                }
                let ghost before_set = *st;
                let listed = fresh.clone();
                let ghost listed_g = listed;
                st.set_tparams(id, listed);
                proof {
                    lemma_kinds_extend_new_tparams(st0, before_set, *st, id, listed_g);
                    assert forall|i: int| st0.syms@.len() <= i < st.syms@.len() implies #[trigger] st.syms@[i] == before_set.syms@[i] by {}
                    assert forall|i: int| 0 <= i < st0.syms@.len() && i != id.0 implies (#[trigger] st.syms@[i]).tparams@
                        == st0.syms@[i].tparams@ by {
                        assert(st.syms@[i] == before_set.syms@[i]);
                    }
                }
                inner = fresh;
            } else if existing == n {
                inner = st.get(id).tparams.clone();
            } else {
                return;
            }
            let ghost start = *st;
            let mut j: usize = 0;
            while j < n
                invariant
                    st.wf(),
                    st0.valid(id),
                    n == ps@.len(),
                    n > 0,
                    j <= n,
                    inner@.len() == n,
                    tp.bounds == SigBounds::Poly(*ps),
                    kind_size(*tp) == 1 + params_size(ps@),
                    st0.syms@.len() + kind_size(*tp) < u32::MAX,
                    st.syms@.len() + (params_size(ps@) - params_size(ps@.take(j as int))) <= st0.syms@.len() + params_size(ps@) + (n - j),
                    kinds_extend(*st, st0),
                    fresh_type_params(*st, st0.syms@.len() as int),
                    st.sym(id).tparams@ == inner@,
                    forall|k: int| #![trigger ps@[k]] 0 <= k < j ==> kind_settled(*st, inner@[k], ps@[k]),
                    was_empty ==> forall|k: int| #![trigger ps@[k]] 0 <= k < j ==> kind_agrees(*st, inner@[k], ps@[k]),
                    was_empty ==> forall|k: int| j <= k < n ==> st.sym(#[trigger] inner@[k]).tparams@.len() == 0,
                    was_empty ==> forall|k: int| 0 <= k < n ==> (#[trigger] inner@[k]).0 == st0.syms@.len() + k,
                    was_empty ==> forall|i: int| 0 <= i < st0.syms@.len() && i != id.0 ==> (#[trigger] st.syms@[i]).tparams@
                        == st0.syms@[i].tparams@,
                decreases n - j,
            {
                let ghost before = *st;
                proof {
                    lemma_params_size_take(ps@, j as int);
                    lemma_params_size_bounds(ps@, j + 1);
                    assert(st.valid(inner@[j as int]));
                    assert(tp.bounds == SigBounds::Poly(*ps));
                    assert(decreases_to!(*tp => tp.bounds));
                    assert(decreases_to!(tp.bounds => *ps));
                    assert(decreases_to!(*ps => ps@));
                    assert(decreases_to!(ps@ => ps@[j as int]));
                    assert(decreases_to!(*tp => ps@[j as int]));
                }
                set_tparam_kind(st, inner[j], &ps[j]);
                proof {
                    lemma_kinds_extend_trans(st0, before, *st);
                    assert(st.syms@[id.0 as int].tparams@ == before.syms@[id.0 as int].tparams@);
                    assert forall|i: int| st0.syms@.len() <= i < st.syms@.len() implies {
                        let s = #[trigger] st.syms@[i];
                        &&& s.kind == SymKind::TypeParam
                        &&& s.ty == Ty::TypeParam(SymbolId(i as u32))
                        &&& s.jvm_name@.len() == 0
                    } by {
                        if i < before.syms@.len() {
                            assert(st.syms@[i].same_but_lists(before.syms@[i]));
                        }
                    }
                    assert forall|k: int| #![trigger ps@[k]] 0 <= k < j + 1 implies kind_settled(*st, inner@[k], ps@[k]) by {
                        if k < j {
                            lemma_kinds_extend_grow(before, *st);
                            lemma_settled_stable(before, *st, inner@[k], ps@[k]);
                        }
                    }
                    if was_empty {
                        assert forall|k: int| #![trigger ps@[k]] 0 <= k < j + 1 implies kind_agrees(*st, inner@[k], ps@[k]) by {
                            if k < j {
                                lemma_kinds_extend_grow(before, *st);
                                lemma_agrees_stable(before, *st, inner@[k], ps@[k]);
                            }
                        }
                        assert forall|k: int| j + 1 <= k < n implies st.sym(#[trigger] inner@[k]).tparams@.len() == 0 by {
                            assert(inner@[k].0 != inner@[j as int].0);
                        }
                        assert forall|i: int| 0 <= i < st0.syms@.len() && i != id.0 implies (#[trigger] st.syms@[i]).tparams@
                            == st0.syms@[i].tparams@ by {
                            assert(before.syms@[i].tparams@ == st0.syms@[i].tparams@);
                        }
                    }
                }
                j += 1;
            }
            proof {
                assert(ps@.take(n as int) =~= ps@);
                assert(st.valid(id));
                if was_empty {
                    assert(kind_agrees(*st, id, *tp));
                }
            }
        },
        _ => {},
    }
}

/// The primitive value class a dotted class name denotes, if it is one.
pub open spec fn prim_named(name: Seq<char>) -> Option<Prim> {
    if name == "scala.Int"@ {
        Some(Prim::Int)
    } else if name == "scala.Long"@ {
        Some(Prim::Long)
    } else if name == "scala.Double"@ {
        Some(Prim::Double)
    } else if name == "scala.Float"@ {
        Some(Prim::Float)
    } else if name == "scala.Boolean"@ {
        Some(Prim::Boolean)
    } else if name == "scala.Byte"@ {
        Some(Prim::Byte)
    } else if name == "scala.Short"@ {
        Some(Prim::Short)
    } else if name == "scala.Char"@ {
        Some(Prim::Char)
    } else {
        None
    }
}

/// The primitive a pickled type parameter is bounded by from above, when
/// that bound is a bare reference to a primitive value class.
pub open spec fn primitive_bound(tp: SigTParam) -> Option<Prim> {
    match tp.bounds {
        SigBounds::Bounds(SigUpper::Ref { sym, nargs }) => if nargs == 0 {
            prim_named(sym@)
        } else {
            None
        },
        _ => None,
    }
}

/// The upper bound a type parameter has once its pickle has been read: its
/// own if it had one, else the pickle's primitive bound.
pub open spec fn adopted_bound(own: Option<Ty>, tp: SigTParam) -> Option<Ty> {
    match own {
        Some(b) => Some(b),
        None => match primitive_bound(tp) {
            Some(p) => Some(Ty::Prim(p)),
            None => None,
        },
    }
}

fn prim_named_exec(name: &str) -> (r: Option<Prim>)
    ensures
        r == prim_named(name@),
{
    if str_eq(name, "scala.Int") {
        Some(Prim::Int)
    } else if str_eq(name, "scala.Long") {
        Some(Prim::Long)
    } else if str_eq(name, "scala.Double") {
        Some(Prim::Double)
    } else if str_eq(name, "scala.Float") {
        Some(Prim::Float)
    } else if str_eq(name, "scala.Boolean") {
        Some(Prim::Boolean)
    } else if str_eq(name, "scala.Byte") {
        Some(Prim::Byte)
    } else if str_eq(name, "scala.Short") {
        Some(Prim::Short)
    } else if str_eq(name, "scala.Char") {
        Some(Prim::Char)
    } else {
        None
    }
}

/// A class type parameter bounded by a primitive value class (`class P[A <:
/// Int]`) erases to that primitive, and the JVM generic signature cannot say
/// so; take the bound from the pickle. Only a type parameter without an
/// upper bound of its own gets one.
pub fn adopt_primitive_bound(st: &mut SymbolTable, id: SymbolId, tp: &SigTParam)
    requires
        old(st).wf(),
        old(st).valid(id),
    ensures
        final(st).wf(),
        adopted_bound(old(st).sym(id).bound_hi, *tp) == old(st).sym(id).bound_hi ==> *final(st) == *old(st),
        adopted_bound(old(st).sym(id).bound_hi, *tp) != old(st).sym(id).bound_hi ==> final(st).one_slot_changed(
            *old(st),
            id,
            Symbol { bound_hi: adopted_bound(old(st).sym(id).bound_hi, *tp), ..old(st).sym(id) },
        ),
{
    if st.get(id).bound_hi.is_some() {
        return;
    }
    let prim = match &tp.bounds {
        SigBounds::Bounds(SigUpper::Ref { sym, nargs }) => {
            if *nargs != 0 {
                return;
            }
            match prim_named_exec(sym.as_str()) {
                Some(p) => p,
                None => {
                    return;
                },
            }
        },
        _ => {
            return;
        },
    };
    st.set_bound_hi(id, Some(Ty::Prim(prim)));
}

/// Old symbols keep everything but their member and type-parameter lists
/// (which only grow, as `tparams_grow` says) and, for the symbols in
/// `touched`, their flags and upper bound.
pub open spec fn adopt_frame(n: SymbolTable, o: SymbolTable, touched: Seq<SymbolId>) -> bool {
    &&& n.syms@.len() >= o.syms@.len()
    &&& n.scope == o.scope
    &&& n.same_well_known(o)
    &&& tparams_grow(n, o)
    &&& forall|i: int| 0 <= i < o.syms@.len() ==> {
        let a = #[trigger] n.syms@[i];
        let b = o.syms@[i];
        &&& a.name == b.name
        &&& a.kind == b.kind
        &&& a.owner == b.owner
        &&& a.jvm_name == b.jvm_name
        &&& a.params == b.params
        &&& a.ty == b.ty
        &&& a.intrinsic == b.intrinsic
        &&& b.members@.is_prefix_of(a.members@)
        &&& !touched.contains(SymbolId(i as u32)) ==> a.flags == b.flags && a.bound_hi == b.bound_hi
    }
}

pub proof fn lemma_kinds_extend_frame(a: SymbolTable, b: SymbolTable, touched: Seq<SymbolId>)
    requires
        kinds_extend(b, a),
    ensures
        adopt_frame(b, a, touched),
{
    assert forall|i: int| 0 <= i < a.syms@.len() implies #[trigger] b.syms@[i].same_but_lists(a.syms@[i]) by {}
}

pub proof fn lemma_frame_trans(a: SymbolTable, b: SymbolTable, c: SymbolTable, touched: Seq<SymbolId>)
    requires
        adopt_frame(b, a, touched),
        adopt_frame(c, b, touched),
    ensures
        adopt_frame(c, a, touched),
{
    lemma_tparams_grow_trans(a, b, c);
    assert forall|i: int| 0 <= i < a.syms@.len() implies a.syms@[i].members@.is_prefix_of(
        #[trigger] c.syms@[i].members@) by {
        let x = a.syms@[i].members@;
        let y = b.syms@[i].members@;
        assert forall|k: int| 0 <= k < x.len() implies x[k] == c.syms@[i].members@[k] by {
            assert(x[k] == y[k]);
        }
    }
}

/// Changing the flags or upper bound of a touched symbol.
pub proof fn lemma_frame_touch(b: SymbolTable, c: SymbolTable, id: SymbolId, s: Symbol, touched: Seq<SymbolId>)
    requires
        c.one_slot_changed(b, id, s),
        b.valid(id),
        b.syms@.len() < u32::MAX,
        touched.contains(id),
        s.tparams@ == b.sym(id).tparams@,
        s.name == b.sym(id).name,
        s.kind == b.sym(id).kind,
        s.owner == b.sym(id).owner,
        s.jvm_name == b.sym(id).jvm_name,
        s.params == b.sym(id).params,
        s.ty == b.sym(id).ty,
        s.intrinsic == b.sym(id).intrinsic,
    ensures
        adopt_frame(c, b, touched),
        forall|i: int| 0 <= i < b.syms@.len() && i != id.0 ==> #[trigger] c.syms@[i] == b.syms@[i],
{
    assert forall|i: int| 0 <= i < b.syms@.len() implies b.syms@[i].members@.is_prefix_of(
        #[trigger] c.syms@[i].members@) by {}
    assert forall|i: int| 0 <= i < b.syms@.len() && !touched.contains(SymbolId(i as u32)) implies {
        let a = #[trigger] c.syms@[i];
        a.flags == b.syms@[i].flags && a.bound_hi == b.syms@[i].bound_hi
    } by {
        if i == id.0 {
            assert(SymbolId(i as u32) == id);
        }
    }
}

/// Give a class read from a class file the kinds its pickle declares for
/// its type parameters. A class with no type parameters of its own gets the
/// pickle's, allocated under it. A class with as many as the pickle has each
/// of them completed: its kind at every depth, its variance, and a
/// primitive upper bound. A class whose count differs from the pickle's is
/// not the class the pickle describes, and is left alone.
pub fn adopt_tparam_kinds(st: &mut SymbolTable, class_sym: SymbolId, sig: &Vec<SigTParam>)
    requires
        old(st).wf(),
        old(st).valid(class_sym),
        old(st).syms@.len() + params_size(sig@) + 1 < u32::MAX,
    ensures
        final(st).wf(),
        adopt_frame(*final(st), *old(st), old(st).sym(class_sym).tparams@),
        fresh_type_params(*final(st), old(st).syms@.len() as int),
        old(st).sym(class_sym).tparams@.len() == 0 && sig@.len() == 0 ==> *final(st) == *old(st),
        old(st).sym(class_sym).tparams@.len() > 0 && old(st).sym(class_sym).tparams@.len() != sig@.len() ==> *final(st) == *old(st),
        old(st).sym(class_sym).tparams@.len() == 0 && sig@.len() > 0 ==> {
            let ts = final(st).sym(class_sym).tparams@;
            &&& ts.len() == sig@.len()
            &&& forall|j: int| #![trigger sig@[j]] 0 <= j < sig@.len() ==> {
                let s = final(st).sym(ts[j]);
                &&& ts[j].0 >= old(st).syms@.len()
                &&& s.name@ == sig@[j].name@
                &&& s.owner == Some(class_sym)
                &&& s.flags == spec_variance_flags(sig@[j].variance)
                &&& s.bound_hi is None
                &&& kind_agrees(*final(st), ts[j], sig@[j])
            }
            &&& forall|i: int| 0 <= i < old(st).syms@.len() && i != class_sym.0 ==> (#[trigger] final(st).syms@[i]).tparams@
                == old(st).syms@[i].tparams@
        },
        old(st).sym(class_sym).tparams@.len() > 0 && old(st).sym(class_sym).tparams@.len() == sig@.len() ==> {
            let ids = old(st).sym(class_sym).tparams@;
            &&& final(st).sym(class_sym).tparams@ == ids
            &&& forall|j: int| #![trigger sig@[j]] 0 <= j < sig@.len() ==> kind_settled(*final(st), ids[j], sig@[j])
            &&& ids.no_duplicates() ==> forall|j: int| #![trigger sig@[j]] 0 <= j < sig@.len() ==> {
                &&& final(st).sym(ids[j]).flags == (old(st).sym(ids[j]).flags | spec_variance_flags(sig@[j].variance))
                &&& final(st).sym(ids[j]).bound_hi == adopted_bound(old(st).sym(ids[j]).bound_hi, sig@[j])
            }
        },
{
    let ghost st0 = *st;
    let ghost touched = st0.sym(class_sym).tparams@;
    let n = sig.len();
    proof {
        lemma_params_size_bounds(sig@, 0);
        assert(sig@.take(0).len() == 0);
        lemma_kinds_extend_refl(st0);
    }
    let ids = st.get(class_sym).tparams.clone();
    if ids.len() == 0 {
        if n == 0 {
            proof {
                lemma_kinds_extend_frame(st0, st0, touched);
            }
            return;
        }
        let mut fresh: Vec<SymbolId> = Vec::new();
        let mut j: usize = 0;
        while j < n
            invariant
                st.wf(),
                st0.valid(class_sym),
                st0.sym(class_sym).tparams@.len() == 0,
                n == sig@.len(),
                j <= n,
                st0.syms@.len() + params_size(sig@) + 1 < u32::MAX,
                st.syms@.len() + (params_size(sig@) - params_size(sig@.take(j as int))) <= st0.syms@.len() + params_size(sig@),
                kinds_extend(*st, st0),
                fresh_type_params(*st, st0.syms@.len() as int),
                st.sym(class_sym).tparams@.len() == 0,
                fresh@.len() == j,
                forall|i: int| 0 <= i < st0.syms@.len() ==> (#[trigger] st.syms@[i]).tparams@ == st0.syms@[i].tparams@,
                forall|k: int| #![trigger sig@[k]] 0 <= k < j ==> {
                    let s = st.sym(fresh@[k]);
                    &&& fresh@[k].0 >= st0.syms@.len()
                    &&& st.valid(fresh@[k])
                    &&& s.name@ == sig@[k].name@
                    &&& s.owner == Some(class_sym)
                    &&& s.flags == spec_variance_flags(sig@[k].variance)
                    &&& s.bound_hi is None
                    &&& kind_agrees(*st, fresh@[k], sig@[k])
                },
            decreases n - j,
        {
            let tp = &sig[j];
            proof {
                lemma_params_size_take(sig@, j as int);
                lemma_params_size_bounds(sig@, j + 1);
            }
            let flags = variance_flags(tp);
            let ghost s1 = *st;
            let x = st.new_symbol(tp.name.as_str(), Some(class_sym), SymKind::TypeParam, flags, "");
            proof {
                lemma_grows_kinds(s1, *st);
                lemma_kinds_extend_trans(st0, s1, *st);
            }
            let ghost s2 = *st;
            st.set_ty(x, Ty::TypeParam(x));
            let ghost s3 = *st;
            proof {
                lemma_kinds_extend_fresh_slot(st0, s2, s3, x, Symbol { ty: Ty::TypeParam(x), ..s2.sym(x) });
                lemma_kinds_extend_fresh_slot(s1, s2, s3, x, Symbol { ty: Ty::TypeParam(x), ..s2.sym(x) });
                assert forall|i: int| st0.syms@.len() <= i < s3.syms@.len() implies {
                    let s = #[trigger] s3.syms@[i];
                    &&& s.kind == SymKind::TypeParam
                    &&& s.ty == Ty::TypeParam(SymbolId(i as u32))
                    &&& s.jvm_name@.len() == 0
                } by {
                    if i == x.0 {
                        reveal_strlit("");
                        assert(s3.syms@[i] == Symbol { ty: Ty::TypeParam(x), ..s2.sym(x) });
                        assert(SymbolId(i as u32) == x);
                    } else {
                        assert(s3.syms@[i] == s2.syms@[i]);
                        assert(s2.syms@[i].same_except_members(s1.syms@[i]));
                    }
                }
                assert(s3.sym(x).tparams@.len() == 0);
            }
            set_tparam_kind(st, x, tp);
            proof {
                lemma_kinds_extend_trans(st0, s3, *st);
                lemma_kinds_extend_trans(s1, s3, *st);
                lemma_kinds_extend_grow(s1, *st);
                assert(st.syms@[x.0 as int].same_but_lists(s3.syms@[x.0 as int]));
                assert forall|k: int| #![trigger sig@[k]] 0 <= k < j + 1 implies {
                    let s = st.sym(fresh@.push(x)[k]);
                    &&& fresh@.push(x)[k].0 >= st0.syms@.len()
                    &&& st.valid(fresh@.push(x)[k])
                    &&& s.name@ == sig@[k].name@
                    &&& s.owner == Some(class_sym)
                    &&& s.flags == spec_variance_flags(sig@[k].variance)
                    &&& s.bound_hi is None
                    &&& kind_agrees(*st, fresh@.push(x)[k], sig@[k])
                } by {
                    if k < j {
                        let f = fresh@[k];
                        assert(st.syms@[f.0 as int].same_but_lists(s1.syms@[f.0 as int]));
                        lemma_agrees_stable(s1, *st, f, sig@[k]);
                    } else {
                        assert(s3.sym(x).name@ == tp.name@);
                    }
                }
                assert forall|i: int| 0 <= i < st0.syms@.len() implies (#[trigger] st.syms@[i]).tparams@ == st0.syms@[i].tparams@ by {
                    assert(s1.syms@[i].tparams@ == st0.syms@[i].tparams@);
                    assert(s3.syms@[i].tparams@ == s1.syms@[i].tparams@);
                }
            }
            fresh.push(x);
            j += 1;
        }
        let ghost before_set = *st;
        let listed = fresh.clone();
        let ghost listed_g = listed;
        assert(listed@ == fresh@);
        assert forall|k: int| 0 <= k < listed@.len() implies st.valid(#[trigger] listed@[k])
            && listed@[k].0 >= st0.syms@.len() by {
            let t = sig@[k];
            assert(st.valid(fresh@[k]));
        }
        st.set_tparams(class_sym, listed);
        proof {
            lemma_kinds_extend_new_tparams(st0, before_set, *st, class_sym, listed_g);
            lemma_kinds_extend_frame(st0, *st, touched);
            assert(tparams_grow(*st, before_set));
            assert forall|i: int| st0.syms@.len() <= i < st.syms@.len() implies #[trigger] st.syms@[i] == before_set.syms@[i] by {}
            assert forall|k: int| #![trigger sig@[k]] 0 <= k < n implies kind_agrees(*st, fresh@[k], sig@[k]) by {
                lemma_agrees_stable(before_set, *st, fresh@[k], sig@[k]);
            }
            assert forall|i: int| 0 <= i < st0.syms@.len() && i != class_sym.0 implies (#[trigger] st.syms@[i]).tparams@
                == st0.syms@[i].tparams@ by {
                assert(st.syms@[i] == before_set.syms@[i]);
            }
        }
        return;
    }
    if ids.len() != n {
        proof {
            lemma_kinds_extend_frame(st0, st0, touched);
        }
        return;
    }
    let ghost ids_g = ids@;
    assert(ids_g == touched);
    let mut j: usize = 0;
    while j < n
        invariant
            st.wf(),
            st0.wf(),
            st0.valid(class_sym),
            ids@ == touched,
            touched == st0.sym(class_sym).tparams@,
            touched.len() == n,
            n > 0,
            n == sig@.len(),
            j <= n,
            st0.syms@.len() + params_size(sig@) + 1 < u32::MAX,
            st.syms@.len() + (params_size(sig@) - params_size(sig@.take(j as int))) <= st0.syms@.len() + params_size(sig@),
            adopt_frame(*st, st0, touched),
            fresh_type_params(*st, st0.syms@.len() as int),
            st.sym(class_sym).tparams@ == touched,
            forall|k: int| #![trigger sig@[k]] 0 <= k < j ==> kind_settled(*st, touched[k], sig@[k]),
            touched.no_duplicates() ==> forall|k: int| #![trigger sig@[k]] 0 <= k < j ==> {
                &&& st.sym(touched[k]).flags == (st0.sym(touched[k]).flags | spec_variance_flags(sig@[k].variance))
                &&& st.sym(touched[k]).bound_hi == adopted_bound(st0.sym(touched[k]).bound_hi, sig@[k])
            },
            touched.no_duplicates() ==> forall|k: int| j <= k < n ==> {
                &&& st.sym(#[trigger] touched[k]).flags == st0.sym(touched[k]).flags
                &&& st.sym(touched[k]).bound_hi == st0.sym(touched[k]).bound_hi
            },
        decreases n - j,
    {
        let id = ids[j];
        let tp = &sig[j];
        proof {
            lemma_params_size_take(sig@, j as int);
            lemma_params_size_bounds(sig@, j + 1);
            assert(st0.valid(touched[j as int]));
        }
        let ghost s1 = *st;
        set_tparam_kind(st, id, tp);
        let ghost s2 = *st;
        proof {
            lemma_kinds_extend_frame(s1, s2, touched);
            lemma_frame_trans(st0, s1, s2, touched);
            lemma_kinds_extend_grow(s1, s2);
            assert(s2.syms@[id.0 as int].same_but_lists(s1.syms@[id.0 as int]));
        }
        let f = st.get(id).flags | variance_flags(tp);
        st.set_flags(id, f);
        let ghost s3 = *st;
        proof {
            assert(touched.contains(id)) by {
                assert(touched[j as int] == id);
            }
            lemma_frame_touch(s2, s3, id, Symbol { flags: f, ..s2.sym(id) }, touched);
            lemma_frame_trans(st0, s2, s3, touched);
        }
        adopt_primitive_bound(st, id, tp);
        proof {
            if adopted_bound(s3.sym(id).bound_hi, *tp) != s3.sym(id).bound_hi {
                lemma_frame_touch(s3, *st, id, Symbol { bound_hi: adopted_bound(s3.sym(id).bound_hi, *tp), ..s3.sym(id) }, touched);
            } else {
                lemma_kinds_extend_refl(s3);
                lemma_kinds_extend_frame(s3, *st, touched);
            }
            lemma_frame_trans(st0, s3, *st, touched);
            lemma_tparams_grow_trans(s1, s2, s3);
            lemma_tparams_grow_trans(s1, s3, *st);
            assert forall|i: int| st0.syms@.len() <= i < st.syms@.len() implies #[trigger] st.syms@[i] == s2.syms@[i] by {
                assert(i != id.0);
            }
            assert forall|k: int| #![trigger sig@[k]] 0 <= k < j + 1 implies kind_settled(*st, touched[k], sig@[k]) by {
                if k < j {
                    lemma_settled_stable(s1, *st, touched[k], sig@[k]);
                } else {
                    lemma_settled_stable(s2, *st, touched[k], sig@[k]);
                }
            }
            if touched.no_duplicates() {
                assert forall|k: int| #![trigger sig@[k]] 0 <= k < j + 1 implies {
                    &&& st.sym(touched[k]).flags == (st0.sym(touched[k]).flags | spec_variance_flags(sig@[k].variance))
                    &&& st.sym(touched[k]).bound_hi == adopted_bound(st0.sym(touched[k]).bound_hi, sig@[k])
                } by {
                    if k < j {
                        assert(touched[k] != id);
                        assert(st.syms@[touched[k].0 as int] == s2.syms@[touched[k].0 as int]);
                    }
                }
                assert forall|k: int| j + 1 <= k < n implies {
                    &&& st.sym(#[trigger] touched[k]).flags == st0.sym(touched[k]).flags
                    &&& st.sym(touched[k]).bound_hi == st0.sym(touched[k]).bound_hi
                } by {
                    assert(touched[k] != id);
                    assert(st.syms@[touched[k].0 as int] == s2.syms@[touched[k].0 as int]);
                }
            }
        }
        j += 1;
    }
}

} // verus!
