use typer::jvm_names::{
    despecialized, implicit_class_conversion_from, is_default_getter, is_nested_jvm_name,
    same_class_owner, singleton_type_names,
};

#[test]
fn singleton_type_names_restore_nested_source_spelling() {
    assert_eq!(
        singleton_type_names("slick.ast.ColumnOption.ColumnOption$PrimaryKey"),
        vec![
            "slick.ast.ColumnOption.ColumnOption$PrimaryKey".to_string(),
            "slick.ast.ColumnOption.PrimaryKey".to_string(),
        ]
    );
    assert_eq!(
        singleton_type_names(
            "slick.relational.RelationalProfile.ColumnOption.RelationalProfile$ColumnOption$Length"
        ),
        vec![
            "slick.relational.RelationalProfile.ColumnOption.RelationalProfile$ColumnOption$Length"
                .to_string(),
            "slick.relational.RelationalProfile.ColumnOption.Length".to_string(),
        ]
    );
    assert_eq!(
        singleton_type_names("scala.collection.immutable.List$Nil"),
        vec!["scala.collection.immutable.List$Nil".to_string()]
    );
}

#[test]
fn singleton_type_names_without_a_dot_or_a_dollar() {
    assert_eq!(singleton_type_names("Nil"), vec!["Nil".to_string()]);
    assert_eq!(singleton_type_names("a.b.C"), vec!["a.b.C".to_string()]);
    // a trailing `$` leaves no nested part
    assert_eq!(singleton_type_names("a.b.C$"), vec!["a.b.C$".to_string()]);
}

#[test]
fn default_getters() {
    assert!(is_default_getter("f$default$2"));
    assert!(is_default_getter("typecheck$default$12"));
    assert!(!is_default_getter("f$default$"));
    assert!(!is_default_getter("f$default$x"));
    assert!(!is_default_getter("f"));
    // the last `$default$` is the one read
    assert!(is_default_getter("a$default$b$default$3"));
}

#[test]
fn despecialized_names() {
    assert_eq!(
        despecialized("slick/jdbc/JdbcTypesComponent$DriverJdbcType$mcJ$sp"),
        Some("slick/jdbc/JdbcTypesComponent$DriverJdbcType")
    );
    assert_eq!(despecialized("scala/Function2$mcIJD$sp"), Some("scala/Function2"));
    assert_eq!(despecialized("scala/Function2$mc$sp"), None);
    assert_eq!(despecialized("scala/Function2$mcX$sp"), None);
    assert_eq!(despecialized("scala/Function2"), None);
}

#[test]
fn nested_jvm_names() {
    assert!(is_nested_jvm_name("scala/collection/Iterator$GroupedIterator"));
    assert!(!is_nested_jvm_name("scala/collection/Iterator"));
    assert!(!is_nested_jvm_name("scala/Predef$"));
    assert!(is_nested_jvm_name("Outer$Inner$"));
}

#[test]
fn class_owner_spellings() {
    assert!(same_class_owner("a/b/Outer$Inner", "a.b.Outer$Inner"));
    assert!(same_class_owner("a/b/Outer$Inner", "a.b.Outer.Inner"));
    assert!(same_class_owner("scala/Predef$", "scala.Predef"));
    assert!(!same_class_owner("one/Shape", "two.Shape"));
    assert!(!same_class_owner("", ""));
}

#[test]
fn implicit_class_conversions_supplied() {
    // a library conversion is supplied
    assert!(implicit_class_conversion_from(true, 900, 500, "cats/syntax/package$", "toFunctorOps"));
    // not a conversion, or on a prelude class
    assert!(!implicit_class_conversion_from(false, 900, 500, "cats/syntax/package$", "toFunctorOps"));
    assert!(!implicit_class_conversion_from(true, 10, 500, "cats/syntax/package$", "toFunctorOps"));
    // the two the typer lowers itself
    assert!(!implicit_class_conversion_from(
        true,
        900,
        500,
        "scala/concurrent/duration/package$",
        "DurationInt"
    ));
    assert!(!implicit_class_conversion_from(
        true,
        900,
        500,
        "scala/reflect/api/Quasiquotes",
        "Quasiquote"
    ));
    assert!(implicit_class_conversion_from(
        true,
        900,
        500,
        "scala/concurrent/duration/package$",
        "Other"
    ));
}
