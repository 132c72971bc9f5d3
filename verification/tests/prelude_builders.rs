use typer::prelude::{
    abs_class, class, ctor_field, fn1, fn2, fn_n, iface, import_members, mark_java, module, module_class_of,
    module_extending, type_param,
};
use typer::prelude_boxed;
use typer::prelude_buildfrom::{companion_module_of, module_class_by_jvm};
use typer::symbols::{
    Intrinsic, Prim, SymKind, SymbolId, SymbolTable, Ty, FLAG_ABSTRACT, FLAG_FINAL, FLAG_IMPLICIT, FLAG_INTERFACE,
    FLAG_JAVA, FLAG_MODULE, FLAG_PACKAGE, FLAG_PARAM, FLAG_TRAIT,
};

fn package(st: &mut SymbolTable, name: &str, jvm: &str) -> SymbolId {
    st.new_symbol(name, None, SymKind::Package, FLAG_PACKAGE, jvm)
}

fn is_class_of(t: &Ty, id: SymbolId) -> bool {
    matches!(t, Ty::Class { sym, args } if *sym == id && args.is_empty())
}

#[test]
fn classes_interfaces_and_modules() {
    let mut st = SymbolTable::new();
    let pkg = package(&mut st, "math", "scala/math");
    let big = class(&mut st, pkg, "BigInt", "scala/math/BigInt", vec![Ty::AnyRef]);
    assert_eq!(st.get(big).flags, FLAG_FINAL);
    assert_eq!(st.get(big).kind, SymKind::Class);
    assert_eq!(st.get(big).owner, Some(pkg));
    assert!(matches!(st.get(big).parents[0], Ty::AnyRef));
    assert!(is_class_of(&st.get(big).ty, big));
    let abs = abs_class(&mut st, pkg, "ScalaNumber", "scala/math/ScalaNumber", vec![]);
    assert_eq!(st.get(abs).flags, FLAG_ABSTRACT);
    let ord = iface(&mut st, pkg, "Ordered", "scala/math/Ordered");
    assert_eq!(st.get(ord).flags, FLAG_INTERFACE | FLAG_ABSTRACT | FLAG_TRAIT);
    assert_eq!(st.get(ord).parents.len(), 1);
    mark_java(&mut st, ord);
    assert_eq!(st.get(ord).flags, FLAG_INTERFACE | FLAG_ABSTRACT | FLAG_TRAIT | FLAG_JAVA);
    let m = module(&mut st, pkg, "BigInt", "scala/math/BigInt$");
    let cls = module_class_of(&st, m).expect("a module has a class");
    assert_eq!(cls.0 + 1, m.0);
    assert_eq!(st.get(cls).name, "BigInt$");
    assert_eq!(st.get(cls).kind, SymKind::ModuleClass);
    assert_eq!(st.get(cls).flags, FLAG_MODULE | FLAG_FINAL);
    assert_eq!(st.get(m).flags, FLAG_MODULE);
    assert_eq!(module_class_of(&st, big), None);
    assert_eq!(st.get(pkg).members, vec![big, abs, ord, cls, m]);
    let e = module_extending(&mut st, pkg, "Ordering", "scala/math/Ordering$", Ty::Class { sym: ord, args: vec![] });
    let ecls = module_class_of(&st, e).unwrap();
    assert!(is_class_of(&st.get(ecls).parents[0], ord));
}

#[test]
fn type_parameters_fields_and_function_types() {
    let mut st = SymbolTable::new();
    let pkg = package(&mut st, "util", "java/util");
    let comparator = iface(&mut st, pkg, "Comparator", "java/util/Comparator");
    let t = type_param(&mut st, comparator, "T");
    assert_eq!(st.get(t).kind, SymKind::TypeParam);
    assert!(matches!(st.get(t).ty, Ty::TypeParam(x) if x == t));
    let f = ctor_field(&mut st, comparator, "msg", Ty::Str);
    assert_eq!(st.get(f).flags, FLAG_PARAM);
    assert!(matches!(st.get(f).ty, Ty::Str));
    assert!(matches!(fn1(Ty::Prim(Prim::Int), Ty::Unit), Ty::Function { params, .. } if params.len() == 1));
    assert!(matches!(fn2(Ty::Prim(Prim::Int), Ty::Str, Ty::Unit), Ty::Function { params, .. } if params.len() == 2));
    assert!(matches!(fn_n(vec![], Ty::Unit), Ty::Function { params, .. } if params.is_empty()));
}

#[test]
fn importing_members_skips_module_classes() {
    let mut st = SymbolTable::new();
    let pkg = package(&mut st, "lang", "java/lang");
    let s = class(&mut st, pkg, "String", "java/lang/String", vec![]);
    let m = module(&mut st, pkg, "System", "java/lang/System");
    import_members(&mut st, pkg);
    assert_eq!(st.scope, vec![("String".to_string(), s), ("System".to_string(), m)]);
}

/// A table with `scala.Predef` as a module, the eight boxes and `Number`.
fn with_predef() -> (SymbolTable, SymbolId, SymbolId, Vec<SymbolId>, SymbolId) {
    let mut st = SymbolTable::new();
    let scala = package(&mut st, "scala", "scala");
    let predef = module(&mut st, scala, "Predef", "scala/Predef$");
    st.predef = Some(predef);
    let pc = module_class_of(&st, predef).unwrap();
    let lang = package(&mut st, "lang", "java/lang");
    let boxes: Vec<SymbolId> = [
        "Boolean", "Byte", "Short", "Character", "Integer", "Long", "Float", "Double",
    ]
    .iter()
    .map(|n| class(&mut st, lang, n, &format!("java/lang/{n}"), vec![]))
    .collect();
    let number = abs_class(&mut st, lang, "Number", "java/lang/Number", vec![]);
    (st, predef, pc, boxes, number)
}

fn method_named(st: &SymbolTable, owner: SymbolId, name: &str) -> Vec<SymbolId> {
    st.get(owner).members.iter().copied().filter(|&m| st.get(m).name == name && st.get(m).kind == SymKind::Method).collect()
}

#[test]
fn the_predef_conversions_box_and_unbox() {
    let (mut st, predef, pc, boxes, number) = with_predef();
    let before = st.syms.len();
    prelude_boxed::install(&mut st, &boxes, number);
    assert_eq!(st.syms.len(), before + 32);
    let to = method_named(&st, pc, "int2Integer");
    assert_eq!(to.len(), 1);
    let id = to[0];
    assert_eq!(st.get(id).flags, FLAG_FINAL | FLAG_IMPLICIT);
    assert_eq!(st.get(id).intrinsic, Intrinsic::BoxValue(Prim::Int));
    match &st.get(id).ty {
        Ty::Method { paramss, ret } => {
            assert!(matches!(paramss[0][0], Ty::Prim(Prim::Int)));
            assert!(is_class_of(ret, boxes[4]));
        },
        _ => panic!("not a method"),
    }
    let x = st.get(id).params[0];
    assert_eq!(st.get(x).name, "x");
    assert_eq!(st.get(id).paramss, vec![vec![x]]);
    let from = method_named(&st, pc, "Character2char")[0];
    assert_eq!(st.get(from).intrinsic, Intrinsic::UnboxValue(Prim::Char));
    // listed on the module value and entered into the scope
    assert!(st.get(predef).members.contains(&id));
    assert!(st.is_entered("int2Integer", id));
    let n = st.scope.len();
    assert_eq!(st.scope[n - 3], ("Integer".to_string(), boxes[4]));
    assert_eq!(st.scope[n - 2], ("Character".to_string(), boxes[3]));
    assert_eq!(st.scope[n - 1], ("Number".to_string(), number));
    // a second pass finds every conversion in place
    prelude_boxed::install(&mut st, &boxes, number);
    assert_eq!(st.syms.len(), before + 32);
    assert_eq!(method_named(&st, pc, "int2Integer").len(), 1);
}

#[test]
fn a_conversion_already_declared_is_kept() {
    let (mut st, predef, pc, boxes, number) = with_predef();
    let mine = typer::prelude::method(&mut st, pc, "long2Long", vec![], Ty::Other, Intrinsic::Plain);
    let before = st.syms.len();
    prelude_boxed::install(&mut st, &boxes, number);
    assert_eq!(st.syms.len(), before + 30);
    assert_eq!(method_named(&st, pc, "long2Long"), vec![mine]);
    // without a Predef nothing happens
    let mut bare = SymbolTable::new();
    prelude_boxed::install(&mut bare, &boxes, number);
    assert_eq!(bare.syms.len(), 8);
    assert!(bare.scope.is_empty());
    let _ = predef;
}

#[test]
fn method_absent_answers_with_the_member_already_there() {
    let mut st = SymbolTable::new();
    let pkg = package(&mut st, "collection", "scala/collection");
    let view = iface(&mut st, pkg, "MapView", "scala/collection/MapView");
    let first = typer::prelude::method_absent(&mut st, view, "keys", vec![], Ty::Other, Intrinsic::Plain);
    assert_eq!(st.get(first).name, "keys");
    let n = st.syms.len();
    let again = typer::prelude::method_absent(&mut st, view, "keys", vec![Ty::Unit], Ty::Unit, Intrinsic::Plain);
    assert_eq!(again, first);
    assert_eq!(st.syms.len(), n);
}

#[test]
fn parents_that_name_classes() {
    let mut st = SymbolTable::new();
    let pkg = package(&mut st, "p", "p");
    let a = class(&mut st, pkg, "A", "p/A", vec![]);
    let b = class(&mut st, pkg, "B", "p/B", vec![]);
    let c = class(&mut st, pkg, "C", "p/C", vec![Ty::AnyRef, Ty::Class { sym: a, args: vec![] }, Ty::Other, Ty::Class { sym: b, args: vec![Ty::Unit] }]);
    assert_eq!(typer::ancestry::parent_classes(&st, c), vec![a, b]);
    assert_eq!(typer::ancestry::parent_classes(&st, a), vec![]);
}

#[test]
fn companions_by_name_and_by_jvm_name() {
    let mut st = SymbolTable::new();
    let pkg = package(&mut st, "collection", "scala/collection");
    let m = module(&mut st, pkg, "IterableFactory", "scala/collection/IterableFactory$");
    let cls = module_class_of(&st, m).unwrap();
    // the module class is found first under the shared JVM name
    assert_eq!(module_class_by_jvm(&st, "scala/collection/IterableFactory$"), Some(cls));
    assert_eq!(module_class_by_jvm(&st, "scala/collection/Nowhere$"), None);
    // a module found by the name stands for its class
    let lone = st.new_symbol("Lone", Some(pkg), SymKind::Module, FLAG_MODULE, "p/Lone$");
    st.set_ty(lone, Ty::ModuleRef(cls));
    assert_eq!(module_class_by_jvm(&st, "p/Lone$"), Some(cls));
    // the companion is the owner's module of the class's own name
    assert_eq!(companion_module_of(&st, cls), None);
    let same = st.new_symbol("IterableFactory$", Some(pkg), SymKind::Module, FLAG_MODULE, "");
    assert_eq!(companion_module_of(&st, cls), Some(same));
    let orphan = st.new_symbol("X$", None, SymKind::ModuleClass, FLAG_MODULE, "");
    assert_eq!(companion_module_of(&st, orphan), None);
}

#[test]
fn class_tag_gets_wrap_once() {
    let install = typer::prelude_classtag::install;
    let mut st = SymbolTable::new();
    let pkg = package(&mut st, "reflect", "scala/reflect");
    let ct = iface(&mut st, pkg, "ClassTag", "scala/reflect/ClassTag");
    let n = st.syms.len();
    // no type parameter yet: nothing to say `wrap` in
    install(&mut st, true);
    assert_eq!(st.syms.len(), n);
    let t = typer::prelude::type_param(&mut st, ct, "T");
    st.set_tparams(ct, vec![t]);
    let n = st.syms.len();
    install(&mut st, false);
    assert_eq!(st.syms.len(), n);
    install(&mut st, true);
    assert_eq!(st.syms.len(), n + 1);
    let wrap = *st.get(ct).members.last().unwrap();
    assert_eq!(st.get(wrap).name, "wrap");
    match &st.get(wrap).ty {
        Ty::Method { paramss, ret } => {
            assert!(paramss.is_empty());
            assert!(matches!(&**ret, Ty::Class { sym, args } if *sym == ct
                && matches!(&args[0], Ty::Array(e) if matches!(**e, Ty::TypeParam(x) if x == t))));
        },
        _ => panic!("not a method"),
    }
    install(&mut st, true);
    assert_eq!(st.syms.len(), n + 1);
}
