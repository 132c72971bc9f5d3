use typer::pickle_supply::PickledTParam;
use typer::symbols::{Prim, SymKind, SymbolId, SymbolTable, Ty, FLAG_CONTRAVARIANT, FLAG_COVARIANT};
use typer::tparam_kinds::{
    adopt_primitive_bound, adopt_tparam_kinds, set_tparam_kind, tparam_arity, variance_flags, SigBounds,
    SigTParam, SigUpper,
};

/// A proper type parameter with no interesting bound.
fn proper(name: &str, variance: i8) -> SigTParam {
    SigTParam { name: name.to_string(), variance, bounds: SigBounds::Bounds(SigUpper::Other) }
}

/// A type constructor parameter over `params`.
fn ctor(name: &str, variance: i8, params: Vec<SigTParam>) -> SigTParam {
    SigTParam { name: name.to_string(), variance, bounds: SigBounds::Poly(params) }
}

/// A proper type parameter bounded above by the class `sym` applied to `nargs` arguments.
fn bounded(name: &str, sym: &str, nargs: usize) -> SigTParam {
    SigTParam {
        name: name.to_string(),
        variance: 0,
        bounds: SigBounds::Bounds(SigUpper::Ref { sym: sym.to_string(), nargs }),
    }
}

/// A class as the class-file reader leaves it: its type parameters by name,
/// none of them with parameters of its own.
fn binary_class(st: &mut SymbolTable, jvm: &str, tparams: &[&str]) -> SymbolId {
    let cls = st.new_symbol("C", None, SymKind::Class, 0, jvm);
    let mut ids = Vec::new();
    for name in tparams {
        let t = st.new_symbol(name, Some(cls), SymKind::TypeParam, 0, "");
        st.set_ty(t, Ty::TypeParam(t));
        ids.push(t);
    }
    st.set_tparams(cls, ids);
    cls
}

#[test]
fn variance_becomes_flags() {
    assert_eq!(variance_flags(&proper("A", 1)), FLAG_COVARIANT);
    assert_eq!(variance_flags(&proper("A", -1)), FLAG_CONTRAVARIANT);
    assert_eq!(variance_flags(&proper("A", 0)), 0);
}

#[test]
fn alias_type_parameters_carry_their_arity() {
    // `type Ref[F[_], A]` yields `[("F", 1), ("A", 0)]`.
    let f = ctor("F", 0, vec![proper("_", 0)]);
    let a = proper("A", 0);
    assert_eq!(tparam_arity(&f), 1);
    assert_eq!(tparam_arity(&a), 0);
    let ps: Vec<PickledTParam> = [&f, &a].iter().map(|tp| PickledTParam::from_sig(tp)).collect();
    assert_eq!(ps[0].name, "F");
    assert_eq!(ps[0].arity, 1);
    assert_eq!(ps[1].name, "A");
    assert_eq!(ps[1].arity, 0);
}

#[test]
fn a_nested_kind_is_built_at_every_depth() {
    // `F[_[_]]`: F's one parameter is itself a constructor.
    let mut st = SymbolTable::new();
    let cls = binary_class(&mut st, "a/Monad", &["F"]);
    let f = st.get(cls).tparams[0];
    let before = st.syms.len();
    let tp = ctor("F", 0, vec![ctor("G", 1, vec![proper("x", 0)])]);
    set_tparam_kind(&mut st, f, &tp);
    assert_eq!(st.syms.len(), before + 2);
    let g = st.get(f).tparams[0];
    assert_eq!(st.get(f).tparams.len(), 1);
    assert_eq!(st.get(g).name, "G");
    assert_eq!(st.get(g).kind, SymKind::TypeParam);
    assert_eq!(st.get(g).flags, FLAG_COVARIANT);
    assert_eq!(st.get(g).owner, Some(f));
    assert_eq!(st.get(g).tparams.len(), 1);
    let x = st.get(g).tparams[0];
    assert_eq!(st.get(x).tparams.len(), 0);
    assert!(matches!(st.get(x).ty, Ty::TypeParam(t) if t == x));
    // a second pass finds every depth in place
    set_tparam_kind(&mut st, f, &tp);
    assert_eq!(st.syms.len(), before + 2);
}

#[test]
fn a_contradicting_kind_is_left_alone() {
    let mut st = SymbolTable::new();
    let cls = binary_class(&mut st, "a/Two", &["F"]);
    let f = st.get(cls).tparams[0];
    set_tparam_kind(&mut st, f, &ctor("F", 0, vec![proper("x", 0)]));
    let n = st.syms.len();
    // the pickle now claims two parameters where the symbol has one
    set_tparam_kind(&mut st, f, &ctor("F", 0, vec![proper("x", 0), proper("y", 0)]));
    assert_eq!(st.syms.len(), n);
    assert_eq!(st.get(f).tparams.len(), 1);
}

#[test]
fn a_class_without_type_parameters_gets_the_pickles() {
    let mut st = SymbolTable::new();
    let cls = binary_class(&mut st, "a/Box", &[]);
    let sig = vec![proper("A", 1), ctor("F", -1, vec![proper("_", 0)])];
    adopt_tparam_kinds(&mut st, cls, &sig);
    let ts = st.get(cls).tparams.clone();
    assert_eq!(ts.len(), 2);
    assert_eq!(st.get(ts[0]).name, "A");
    assert_eq!(st.get(ts[0]).flags, FLAG_COVARIANT);
    assert_eq!(st.get(ts[1]).name, "F");
    assert_eq!(st.get(ts[1]).flags, FLAG_CONTRAVARIANT);
    assert_eq!(st.get(ts[1]).tparams.len(), 1);
    assert!(st.get(cls).members.contains(&ts[0]));
}

#[test]
fn a_class_whose_count_differs_is_not_the_pickles() {
    let mut st = SymbolTable::new();
    let cls = binary_class(&mut st, "a/Pair", &["A", "B"]);
    let n = st.syms.len();
    adopt_tparam_kinds(&mut st, cls, &vec![ctor("F", 1, vec![proper("_", 0)])]);
    assert_eq!(st.syms.len(), n);
    let a = st.get(cls).tparams[0];
    assert_eq!(st.get(a).flags, 0);
    assert_eq!(st.get(a).tparams.len(), 0);
    // and nothing at all to adopt
    let empty = binary_class(&mut st, "a/Unit", &[]);
    let n = st.syms.len();
    adopt_tparam_kinds(&mut st, empty, &vec![]);
    assert_eq!(st.syms.len(), n);
}

#[test]
fn a_primitive_upper_bound_is_taken_from_the_pickle() {
    // `class P[A <: Int]`
    let mut st = SymbolTable::new();
    let cls = binary_class(&mut st, "a/P", &["A"]);
    adopt_tparam_kinds(&mut st, cls, &vec![bounded("A", "scala.Int", 0)]);
    let a = st.get(cls).tparams[0];
    assert!(matches!(st.get(a).bound_hi, Some(Ty::Prim(Prim::Int))));
    // a bound of its own is kept
    let b = st.new_symbol("B", None, SymKind::TypeParam, 0, "");
    st.set_bound_hi(b, Some(Ty::Other));
    adopt_primitive_bound(&mut st, b, &bounded("B", "scala.Char", 0));
    assert!(matches!(st.get(b).bound_hi, Some(Ty::Other)));
    // only a bare reference to a value class counts
    let c = st.new_symbol("C", None, SymKind::TypeParam, 0, "");
    adopt_primitive_bound(&mut st, c, &bounded("C", "scala.Option", 0));
    adopt_primitive_bound(&mut st, c, &bounded("C", "scala.Long", 1));
    assert!(st.get(c).bound_hi.is_none());
    adopt_primitive_bound(&mut st, c, &bounded("C", "scala.Boolean", 0));
    assert!(matches!(st.get(c).bound_hi, Some(Ty::Prim(Prim::Boolean))));
}

#[test]
fn pickled_higher_kinded_class_parameter_keeps_its_upper_bound() {
    // `IterableFactoryDefaults[+A, +CC[x] <: IterableOps[x, CC, CC[x]]]`, read
    // from its class file with `CC` bounded but of no kind, then given the
    // kinds its pickle declares.
    let mut st = SymbolTable::new();
    let cls = binary_class(&mut st, "scala/collection/IterableFactoryDefaults", &["A", "CC"]);
    let cc = st.get(cls).tparams[1];
    st.set_bound_hi(cc, Some(Ty::Other));
    let sig = vec![proper("A", 1), ctor("CC", 1, vec![proper("x", 0)])];
    adopt_tparam_kinds(&mut st, cls, &sig);
    let found = st.find_by_jvm("scala/collection/IterableFactoryDefaults");
    assert_eq!(found, Some(cls), "IterableFactoryDefaults should be loaded");
    let cc = st.get(cls).tparams[1];
    assert_eq!(st.get(cc).tparams.len(), 1);
    assert!(st.get(cc).bound_hi.is_some(), "the bound on IterableFactoryDefaults.CC was erased");
    assert_eq!(st.get(cc).flags, FLAG_COVARIANT);
}
