use typer::prelude_anyval2::{add_any_members, add_array_members, add_string_members};
use typer::prelude_classtag2::add_classtag;
use typer::symbols::{Intrinsic, Prim, SymKind, SymbolId, SymbolTable, Ty, FLAG_FINAL, FLAG_PACKAGE};

fn class(st: &mut SymbolTable, name: &str, jvm: &str) -> SymbolId {
    st.new_symbol(name, None, SymKind::Class, FLAG_FINAL, jvm)
}

fn names(st: &SymbolTable, owner: SymbolId) -> Vec<String> {
    st.get(owner).members.iter().map(|m| st.get(*m).name.clone()).collect()
}

fn clauses(t: &Ty) -> usize {
    match t {
        Ty::Method { paramss, .. } => paramss.len(),
        _ => panic!("not a method type"),
    }
}

#[test]
fn any_and_anyref_members() {
    let mut st = SymbolTable::new();
    let any = class(&mut st, "Any", "java/lang/Object");
    let anyref = class(&mut st, "AnyRef", "java/lang/Object");
    st.any_sym = Some(any);
    st.anyref_sym = Some(anyref);
    let first = st.syms.len() as u32;
    add_any_members(&mut st);
    assert_eq!(st.syms.len() as u32, first + 13);
    assert_eq!(
        names(&st, any),
        vec!["==", "!=", "equals", "hashCode", "toString", "asInstanceOf", "isInstanceOf", "synchronized"]
    );
    assert_eq!(names(&st, anyref), vec!["eq", "ne"]);
    assert_eq!(st.get(SymbolId(first)).intrinsic, Intrinsic::AnyEq);
    assert_eq!(st.get(SymbolId(first + 11)).intrinsic, Intrinsic::RefEq);
    // `asInstanceOf[T0]: T0`
    let aio = SymbolId(first + 5);
    let t0 = SymbolId(first + 6);
    assert_eq!(st.get(aio).tparams, vec![t0]);
    assert_eq!(st.get(t0).name, "T0");
    assert!(matches!(&st.get(aio).ty, Ty::Method { paramss, ret } if paramss.is_empty() && matches!(**ret, Ty::TypeParam(x) if x == t0)));
    // `isInstanceOf[T0]: Boolean`
    assert!(matches!(&st.get(SymbolId(first + 7)).ty, Ty::Method { ret, .. } if matches!(**ret, Ty::Prim(Prim::Boolean))));
    // `synchronized[T0](body: => T0): T0`
    let sync = SymbolId(first + 9);
    let t = SymbolId(first + 10);
    match &st.get(sync).ty {
        Ty::Method { paramss, ret } => {
            assert_eq!(paramss.len(), 1);
            assert!(matches!(&paramss[0][0], Ty::ByName(b) if matches!(**b, Ty::TypeParam(x) if x == t)));
            assert!(matches!(**ret, Ty::TypeParam(x) if x == t));
        }
        _ => panic!("synchronized is a method"),
    }
}

#[test]
fn string_members_for_the_library_and_for_the_private_runtime() {
    for (library_abi, count) in [(true, 9usize), (false, 14usize)] {
        let mut st = SymbolTable::new();
        let s = class(&mut st, "String", "java/lang/String");
        st.string_sym = Some(s);
        add_string_members(&mut st, library_abi);
        assert_eq!(st.get(s).members.len(), count);
        let n = names(&st, s);
        assert_eq!(n[0], "+");
        assert_eq!(n.contains(&"isEmpty".to_string()), !library_abi);
        assert_eq!(n.contains(&"toInt".to_string()), !library_abi);
        assert!(n.contains(&"split".to_string()));
    }
    let mut st = SymbolTable::new();
    let s = class(&mut st, "String", "java/lang/String");
    st.string_sym = Some(s);
    add_string_members(&mut st, false);
    let plus = st.get(s).members[0];
    assert_eq!(st.get(plus).intrinsic, Intrinsic::StringConcat);
    let to_string = st.get(s).members[5];
    assert_eq!(st.get(to_string).name, "toString");
    assert_eq!(st.get(to_string).intrinsic, Intrinsic::Identity);
    let split = st.get(s).members[9];
    assert!(matches!(&st.get(split).ty, Ty::Method { ret, .. } if matches!(&**ret, Ty::Array(e) if matches!(**e, Ty::Str))));
    let to_double = st.get(s).members[13];
    assert_eq!(st.get(to_double).intrinsic, Intrinsic::StringToDouble);
}

#[test]
fn array_clone_takes_an_empty_clause() {
    let mut st = SymbolTable::new();
    let a = class(&mut st, "Array", "[java/lang/Object");
    st.array_sym = Some(a);
    add_array_members(&mut st);
    assert_eq!(names(&st, a), vec!["length", "apply", "update", "clone"]);
    let m = &st.get(a).members;
    assert_eq!(clauses(&st.get(m[0]).ty), 0);
    assert_eq!(clauses(&st.get(m[3]).ty), 1);
    assert!(matches!(&st.get(m[3]).ty, Ty::Method { paramss, .. } if paramss[0].is_empty()));
}

#[test]
fn class_tag_and_its_companion() {
    let mut st = SymbolTable::new();
    let scala = st.new_symbol("scala", None, SymKind::Package, FLAG_PACKAGE, "scala");
    let jclass = class(&mut st, "Class", "java/lang/Class");
    st.scala_pkg = Some(scala);
    let first = st.syms.len() as u32;
    let ct = add_classtag(&mut st, jclass);
    assert_eq!(st.syms.len() as u32, first + 23);
    assert_eq!(ct, SymbolId(first + 1));
    assert_eq!(st.get(ct).jvm_name, "scala/reflect/ClassTag");
    assert_eq!(st.get(SymbolId(first)).owner, Some(scala));
    assert_eq!(names(&st, ct), vec!["T", "runtimeClass", "newArray"]);
    let companion = SymbolId(first + 6);
    let getters = names(&st, companion);
    assert_eq!(getters.len(), 15);
    assert_eq!(getters[0], "Int");
    assert_eq!(getters[11], "Object");
    assert_eq!(getters[14], "apply");
    // `ClassTag.Object: ClassTag[AnyRef]`, not final: no implicit candidate.
    let object = st.get(SymbolId(first + 18));
    assert_eq!(object.flags, 0);
    assert!(matches!(&object.ty, Ty::Method { ret, .. }
        if matches!(&**ret, Ty::Class { sym, args } if *sym == ct && matches!(args[0], Ty::AnyRef))));
    let apply = SymbolId(first + 21);
    let t = SymbolId(first + 22);
    assert_eq!(st.get(apply).tparams, vec![t]);
    assert!(matches!(&st.get(apply).ty, Ty::Method { ret, .. }
        if matches!(&**ret, Ty::Class { args, .. } if matches!(args[0], Ty::TypeParam(x) if x == t))));
}
