use typer::pickle_supply::{
    class_key, drop_stale_members, erased_desc, erased_params, hit_slots_of, implicit_extension_names, internal_name, named_members, EnsureClass, ImplicitDecl, ClassMethod, Completion, PickleSupply,
    PickledMember, PickledTParam,
};
use typer::prelude::prelude_method;
use typer::symbols::{Intrinsic, SymKind, SymbolId, SymbolTable, Ty};

/// A table with `scala.collection.immutable.List` and the members the
/// hand-written prelude gives it.
fn prelude_with_list() -> (SymbolTable, SymbolId) {
    let mut st = SymbolTable::new();
    let list = st.new_symbol("List", None, SymKind::Class, 0, "scala/collection/immutable/List");
    prelude_method(&mut st, list, "map", vec![Ty::Other], Ty::Other, Intrinsic::Plain);
    prelude_method(&mut st, list, "foreach", vec![Ty::Other], Ty::Prim(typer::symbols::Prim::Boolean), Intrinsic::Plain);
    (st, list)
}

/// What `List`'s class file declares.
fn list_classfile() -> Vec<ClassMethod> {
    vec![
        ClassMethod {
            name: "map".to_string(),
            desc: "(Lscala/Function1;)Lscala/collection/immutable/List;".to_string(),
            access: 1,
        },
        ClassMethod {
            name: "tails".to_string(),
            desc: "()Lscala/collection/Iterator;".to_string(),
            access: 1,
        },
    ]
}

/// Answer a lookup the way the typer does: the table first, the pickle on a
/// first miss.
fn lookup(st: &mut SymbolTable, supply: &mut PickleSupply, cls: SymbolId, name: &str, reads: &mut usize) -> Vec<SymbolId> {
    match supply.resolve_member(st, cls, name, name, false) {
        Completion::Answered(ms) => ms,
        Completion::ReadPickle => {
            *reads += 1;
            let hits = vec![PickledMember {
                name: name.to_string(),
                params: vec![],
                ret: Ty::Other,
                result: None,
            }];
            let prelude_end = st.syms.len() as u32;
            supply.supply(st, cls, prelude_end, name, &list_classfile(), hits);
            named_members(st, cls, name)
        }
    }
}

/// A member the prelude declares by hand must keep coming from the
/// prelude: completion runs only after resolution failed, so it can add
/// members but never replace one. A supplied member is recognisable by the
/// JVM descriptor parked in its `jvm_name`.
#[test]
fn the_prelude_wins_over_the_pickle() {
    let (mut st, list) = prelude_with_list();
    let mut supply = PickleSupply::new();
    let mut reads = 0;
    lookup(&mut st, &mut supply, list, "map", &mut reads);
    lookup(&mut st, &mut supply, list, "tails", &mut reads);
    let maps: Vec<_> = st
        .get(list)
        .members
        .iter()
        .filter(|&&m| st.get(m).name == "map")
        .collect();
    assert_eq!(maps.len(), 1, "prelude List#map was duplicated by the pickle");
    assert!(
        st.get(*maps[0]).jvm_name.is_empty(),
        "prelude List#map was replaced by a pickle-supplied one"
    );
    // ...while a member the prelude does not have does come from the pickle.
    let tails: Vec<_> = st
        .get(list)
        .members
        .iter()
        .filter(|&&m| st.get(m).name == "tails")
        .collect();
    assert_eq!(tails.len(), 1, "expected exactly one supplied tails");
    assert!(
        st.get(*tails[0]).jvm_name.starts_with('('),
        "List#tails should carry an erased descriptor, got {:?}",
        st.get(*tails[0]).jvm_name
    );
}

/// Nothing is read until a lookup actually misses.
#[test]
fn nothing_is_supplied_when_nothing_is_missing() {
    let (mut st, list) = prelude_with_list();
    let mut supply = PickleSupply::new();
    let mut reads = 0;
    let found = lookup(&mut st, &mut supply, list, "foreach", &mut reads);
    assert_eq!(found.len(), 1);
    let supplied = st
        .get(list)
        .members
        .iter()
        .filter(|&&m| st.get(m).jvm_name.starts_with('('))
        .count();
    assert_eq!(supplied, 0, "read a pickle for a member the prelude has");
    assert_eq!(reads, 0);
}

#[test]
fn one_read_per_miss() {
    let (mut st, list) = prelude_with_list();
    let mut supply = PickleSupply::new();
    let mut reads = 0;
    let first = lookup(&mut st, &mut supply, list, "tails", &mut reads);
    let second = lookup(&mut st, &mut supply, list, "tails", &mut reads);
    assert_eq!(reads, 1);
    assert_eq!(first, second);
    // a name the class file does not have is attempted once and answered empty
    let none1 = lookup(&mut st, &mut supply, list, "nope", &mut reads);
    let none2 = lookup(&mut st, &mut supply, list, "nope", &mut reads);
    assert!(none1.is_empty() && none2.is_empty());
    assert_eq!(reads, 2);
}

#[test]
fn no_completion_outside_the_readable_pickles() {
    let (mut st, _) = prelude_with_list();
    let user = st.new_symbol("User", None, SymKind::Class, 0, "com/example/User");
    let mut supply = PickleSupply::new();
    match supply.complete_step(&st, user, "anything", "anything", false) {
        Completion::Answered(ms) => assert!(ms.is_empty()),
        Completion::ReadPickle => panic!("read a pickle nobody reads"),
    }
    let list = SymbolId(8);
    match supply.complete_step(&st, list, "", "", false) {
        Completion::Answered(ms) => assert!(ms.is_empty()),
        Completion::ReadPickle => panic!("read a pickle for an empty name"),
    }
}

#[test]
fn a_member_without_a_descriptor_is_not_supplied() {
    let (mut st, list) = prelude_with_list();
    let supply = PickleSupply::new();
    let hits = vec![
        PickledMember {
            name: "tails".to_string(),
            params: vec![Ty::Other],
            ret: Ty::Other,
            // one parameter; the class file's `tails` takes none
            result: None,
        },
        PickledMember {
            name: "tails".to_string(),
            params: vec![],
            ret: Ty::Other,
            result: None,
        },
    ];
    let before = st.syms.len();
    let members_before = st.get(list).members.clone();
    let prelude_end = st.syms.len() as u32;
    let got = supply.supply(&mut st, list, prelude_end, "tails", &list_classfile(), hits);
    assert_eq!(got.len(), 1);
    assert_eq!(st.syms.len(), before + 1);
    let mut expected = members_before;
    expected.push(got[0]);
    assert_eq!(st.get(list).members, expected);
    assert_eq!(st.get(got[0]).owner, Some(list));
    assert_eq!(st.get(got[0]).jvm_name, "()Lscala/collection/Iterator;");
}

fn method(name: &str, desc: &str, access: u16) -> ClassMethod {
    ClassMethod { name: name.to_string(), desc: desc.to_string(), access }
}

#[test]
fn erased_descriptor_is_the_unique_match() {
    let ms = vec![
        method("from", "(I)Lscala/collection/immutable/Range;", 1),
        method("from", "(Lscala/collection/IterableOnce;)Lscala/collection/immutable/List;", 1),
    ];
    assert_eq!(
        erased_desc(&ms, "from", &vec![None], None),
        Some("(Lscala/collection/IterableOnce;)Lscala/collection/immutable/List;".to_string())
    );
    assert_eq!(
        erased_desc(&ms, "from", &vec![Some("I".to_string())], None),
        Some("(I)Lscala/collection/immutable/Range;".to_string())
    );
    assert_eq!(erased_desc(&ms, "to", &vec![None], None), None);
}

#[test]
fn erased_descriptor_skips_bridges_and_statics() {
    let ms = vec![
        method("apply", "(Ljava/lang/Object;)Ljava/lang/Object;", 0x0040),
        method("apply", "(Ljava/lang/Object;)Ljava/lang/Object;", 0x0008),
        method("apply", "(Ljava/lang/Object;)Ljava/lang/Object;", 0x1000),
    ];
    assert_eq!(erased_desc(&ms, "apply", &vec![None], None), None);
}

#[test]
fn erased_descriptor_overloads_told_apart_by_result() {
    let ms = vec![
        method("map", "(Lscala/Function1;)Lscala/collection/immutable/IntMap;", 1),
        method("map", "(Lscala/Function1;)Lscala/collection/immutable/Map;", 1),
        // the same descriptor twice counts once
        method("map", "(Lscala/Function1;)Lscala/collection/immutable/Map;", 1),
    ];
    assert_eq!(erased_desc(&ms, "map", &vec![None], None), None);
    assert_eq!(
        erased_desc(&ms, "map", &vec![None], Some("Lscala/collection/immutable/IntMap;")),
        Some("(Lscala/Function1;)Lscala/collection/immutable/IntMap;".to_string())
    );
    assert_eq!(erased_desc(&ms, "map", &vec![None], Some("V")), None);
}

#[test]
fn drop_stale_keeps_an_installed_member_once() {
    let mut st = SymbolTable::new();
    let cls = st.new_symbol("C", None, SymKind::Class, 0, "q/C");
    let a = st.new_symbol("f", Some(cls), SymKind::Method, 0, "");
    let b = st.new_symbol("f", Some(cls), SymKind::Method, 0, "");
    let other = st.new_symbol("g", Some(cls), SymKind::Method, 0, "");
    // `b` was re-filled from the pickle and pushed again
    st.push_member(cls, b);
    drop_stale_members(&mut st, cls, &[a, b], &[b]);
    assert_eq!(st.get(cls).members, vec![b, other]);
}

#[test]
fn drop_stale_removes_only_stale() {
    let mut st = SymbolTable::new();
    let cls = st.new_symbol("C", None, SymKind::Class, 0, "q/C");
    let a = st.new_symbol("f", Some(cls), SymKind::Method, 0, "");
    let b = st.new_symbol("g", Some(cls), SymKind::Method, 0, "");
    drop_stale_members(&mut st, cls, &[a], &[]);
    assert_eq!(st.get(cls).members, vec![b]);
    drop_stale_members(&mut st, cls, &[], &[]);
    assert_eq!(st.get(cls).members, vec![b]);
}

#[test]
fn pickled_tparam_records_its_arity() {
    let tp = PickledTParam { name: "F".to_string(), arity: 1 };
    assert_eq!(tp.name, "F");
    assert_eq!(tp.arity, 1);
}

/// A pickle hit with the name and erased parameters of a hand-written
/// member is answered by that member, and nothing is installed for it.
#[test]
fn a_hand_written_member_blocks_the_pickled_copy() {
    let (mut st, list) = prelude_with_list();
    let hand = st.new_symbol("tails", Some(list), SymKind::Method, 0, "");
    st.set_ty(hand, Ty::Method { paramss: vec![vec![Ty::Prim(typer::symbols::Prim::Int)]], ret: Box::new(Ty::Other) });
    let prelude_end = st.syms.len() as u32;
    let supply = PickleSupply::new();
    let hits = vec![PickledMember {
        name: "tails".to_string(),
        params: vec![Ty::Prim(typer::symbols::Prim::Int)],
        ret: Ty::Other,
        result: None,
    }];
    let before = st.syms.len();
    let members = st.get(list).members.clone();
    let got = supply.supply(&mut st, list, prelude_end, "tails", &list_classfile(), hits);
    assert_eq!(got, vec![hand]);
    assert_eq!(st.syms.len(), before);
    assert_eq!(st.get(list).members, members);
}

#[test]
fn erased_parameter_slots() {
    let (st, list) = prelude_with_list();
    let t = Ty::Method {
        paramss: vec![
            vec![Ty::Prim(typer::symbols::Prim::Long), Ty::Str, Ty::Unit],
            vec![Ty::Class { sym: list, args: vec![] }, Ty::Function { params: vec![Ty::Any, Ty::Any], ret: Box::new(Ty::Any) }],
        ],
        ret: Box::new(Ty::Unit),
    };
    assert_eq!(
        erased_params(&st, &t),
        vec![
            Some("J".to_string()),
            Some("Ljava/lang/String;".to_string()),
            Some("Lscala/runtime/BoxedUnit;".to_string()),
            Some(format!("L{};", st.get(list).jvm_name)),
            Some("Lscala/Function2;".to_string()),
        ]
    );
}

/// A name the class file cannot spell is attempted once and answered
/// empty, without reading the pickle.
#[test]
fn a_name_that_is_no_jvm_name_reads_nothing() {
    let (st, list) = prelude_with_list();
    let mut supply = PickleSupply::new();
    match supply.complete_step(&st, list, "+:", "+:", false) {
        Completion::Answered(ms) => assert!(ms.is_empty()),
        Completion::ReadPickle => panic!("read a pickle for a name the class file cannot hold"),
    }
    match supply.complete_step(&st, list, "+:", "$plus$colon", false) {
        Completion::Answered(ms) => assert!(ms.is_empty()),
        Completion::ReadPickle => panic!("attempted twice"),
    }
}

/// The slots a hit is matched under come from its own parameters.
#[test]
fn hit_slots_come_from_the_parameters() {
    let (st, list) = prelude_with_list();
    let params = vec![Ty::Prim(typer::symbols::Prim::Int), Ty::Other, Ty::Class { sym: list, args: vec![] }];
    assert_eq!(
        hit_slots_of(&st, &params),
        vec![Some("I".to_string()), None, Some("Lscala/collection/immutable/List;".to_string())]
    );
}

/// A hand-written member of another erased shape does not block the hit.
#[test]
fn a_hand_written_member_of_another_shape_does_not_block() {
    let (mut st, list) = prelude_with_list();
    let hand = st.new_symbol("tails", Some(list), SymKind::Method, 0, "");
    st.set_ty(hand, Ty::Method { paramss: vec![vec![Ty::Prim(typer::symbols::Prim::Long)]], ret: Box::new(Ty::Other) });
    let prelude_end = st.syms.len() as u32;
    let supply = PickleSupply::new();
    let hits = vec![PickledMember {
        name: "tails".to_string(),
        params: vec![],
        ret: Ty::Other,
        result: None,
    }];
    let got = supply.supply(&mut st, list, prelude_end, "tails", &list_classfile(), hits);
    assert_eq!(got.len(), 1);
    assert_ne!(got[0], hand);
    assert!(got[0].0 >= prelude_end);
}

/// A nested class with no pickle of its own is read through its enclosing
/// class's pickle.
#[test]
fn a_nested_pickle_admits_the_receiver() {
    let (mut st, _) = prelude_with_list();
    let inner = st.new_symbol("Inner", None, SymKind::Class, 0, "com/example/Outer$Inner");
    let mut supply = PickleSupply::new();
    match supply.complete_step(&st, inner, "go", "go", true) {
        Completion::ReadPickle => {},
        Completion::Answered(_) => panic!("the enclosing pickle describes the nested class"),
    }
}

/// A receiver that is no class or module class gets nothing, and the miss is
/// remembered.
#[test]
fn a_receiver_that_is_no_class_gets_nothing() {
    let (mut st, _) = prelude_with_list();
    let pkg = st.new_symbol("collection", None, SymKind::Package, 0, "scala/collection");
    let mut supply = PickleSupply::new();
    match supply.complete_step(&st, pkg, "go", "go", false) {
        Completion::Answered(ms) => assert!(ms.is_empty()),
        Completion::ReadPickle => panic!("a package has no pickle of members"),
    }
    match supply.complete_step(&st, pkg, "go", "go", false) {
        Completion::Answered(ms) => assert!(ms.is_empty()),
        Completion::ReadPickle => panic!("asked twice"),
    }
}

/// Supplying a class's implicit members opens its pickle to completion,
/// once, and never for a Java class.
#[test]
fn implicit_members_open_the_pickle_once() {
    let (mut st, _) = prelude_with_list();
    let user = st.new_symbol("Ops", None, SymKind::ModuleClass, 0, "com/example/Ops$");
    let jlist = st.new_symbol("List", None, SymKind::Class, 0, "java/util/List");
    let mut supply = PickleSupply::new();
    assert!(!supply.pickle_readable(&st, user));
    assert!(supply.implicit_members_step(&st, user));
    assert!(!supply.implicit_members_step(&st, user));
    assert!(supply.pickle_readable(&st, user));
    assert!(!supply.implicit_members_step(&st, jlist));
    assert!(!supply.pickle_readable(&st, jlist));
    match supply.complete_step(&st, user, "go", "go", false) {
        Completion::ReadPickle => {},
        Completion::Answered(_) => panic!("the supplied class's pickle is read"),
    }
}

/// A dotted class name in its JVM spelling.
#[test]
fn internal_names_use_slashes() {
    assert_eq!(internal_name("scala.collection.immutable.List"), "scala/collection/immutable/List");
    assert_eq!(internal_name("Plain"), "Plain");
}

/// The first candidate class file that exists names the class; else the
/// plain name, with a `$` for a module.
#[test]
fn class_keys() {
    let cands = vec!["a/Outer$Inner".to_string(), "a/Outer/Inner".to_string()];
    assert_eq!(class_key("a/Outer/Inner", false, &cands, &vec![false, true]), "a/Outer/Inner");
    assert_eq!(class_key("a/Outer/Inner", false, &cands, &vec![true, true]), "a/Outer$Inner");
    assert_eq!(class_key("a/Outer/Inner", true, &cands, &vec![false, false]), "a/Outer/Inner$");
    assert_eq!(class_key("a/X", false, &vec![], &vec![]), "a/X");
}

/// What `ensure_class` does for each kind of name.
#[test]
fn ensure_class_decisions() {
    let (st, list) = prelude_with_list();
    let mut supply = PickleSupply::new();
    assert!(matches!(supply.ensure_class_step(&st, "java.util.List", "java/util/List"), EnsureClass::JavaClass));
    assert!(matches!(
        supply.ensure_class_step(&st, "scala.collection.immutable.List", "scala/collection/immutable/List"),
        EnsureClass::InTable(id) if id == list
    ));
    assert!(matches!(supply.ensure_class_step(&st, "scala.util.Try", "scala/util/Try"), EnsureClass::FromPickle));
    assert!(matches!(supply.ensure_class_step(&st, "cats.Monad", "cats/Monad"), EnsureClass::OutsideLibrary));
    supply.record_stub("cats/Monad", SymbolId(3));
    assert_eq!(supply.stub_for("cats/Monad"), Some(SymbolId(3)));
    assert!(matches!(supply.ensure_class_step(&st, "cats.Monad", "cats/Monad"), EnsureClass::Stubbed(SymbolId(3))));
    supply.record_stub("cats/Monad", SymbolId(4));
    assert_eq!(supply.stub_for("cats/Monad"), Some(SymbolId(4)));
    assert_eq!(supply.stub_for("cats/Functor"), None);
}

/// The implicit extensions of a (class, member) pair are looked for once,
/// and only on a class whose pickle is read.
#[test]
fn implicit_extensions_are_looked_for_once() {
    let (mut st, list) = prelude_with_list();
    let user = st.new_symbol("User", None, SymKind::Class, 0, "com/example/User");
    let mut supply = PickleSupply::new();
    assert!(supply.implicit_extensions_step(&st, list, "asJava"));
    assert!(!supply.implicit_extensions_step(&st, list, "asJava"));
    assert!(supply.implicit_extensions_step(&st, list, "asScala"));
    assert!(!supply.implicit_extensions_step(&st, list, ""));
    assert!(!supply.implicit_extensions_step(&st, user, "asJava"));
}

fn decl(name: &str, implicit: bool, result_has_member: Option<bool>) -> ImplicitDecl {
    ImplicitDecl { name: name.to_string(), def_or_module: true, implicit, visible: true, result_has_member }
}

/// Only the visible implicit conversions whose result may declare the
/// member are completed, each name once.
#[test]
fn implicit_extension_names_filter_and_dedup() {
    let decls = vec![
        decl("toOps", true, Some(true)),
        decl("plain", false, Some(true)),
        decl("noMember", true, Some(false)),
        decl("unknown", true, None),
        decl("<init>", true, None),
        decl("syn$1", true, None),
        decl("toOps", true, None),
        decl("", true, None),
    ];
    assert_eq!(implicit_extension_names(&decls), vec!["toOps".to_string(), "unknown".to_string()]);
}
