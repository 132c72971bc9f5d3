use typer::descriptor::{desc_arity, desc_params, params_match};

#[test]
fn descriptor_arity() {
    assert_eq!(desc_arity("()V"), Some(0));
    assert_eq!(
        desc_arity("(Ljava/lang/String;)Ljava/lang/String;"),
        Some(1)
    );
    assert_eq!(
        desc_arity("(Ljava/lang/Object;Lscala/Function2;)Ljava/lang/Object;"),
        Some(2)
    );
    assert_eq!(desc_arity("(I[[Ljava/lang/String;J)V"), Some(3));
    assert_eq!(desc_arity("no"), None);
}

#[test]
fn desc_params_splits_each_field_descriptor() {
    assert_eq!(
        desc_params("(I[[Ljava/lang/String;J)V"),
        Some(vec![
            "I".to_string(),
            "[[Ljava/lang/String;".to_string(),
            "J".to_string()
        ])
    );
    assert_eq!(desc_params("()V"), Some(vec![]));
}

#[test]
fn desc_params_refuses_what_is_not_a_descriptor() {
    assert_eq!(desc_params(""), None);
    assert_eq!(desc_params("I)V"), None);
    // no closing parenthesis
    assert_eq!(desc_params("(I"), None);
    // an unterminated class name
    assert_eq!(desc_params("(Ljava/lang/String"), None);
    // an array of nothing runs off the end
    assert_eq!(desc_params("(["), None);
    assert_eq!(desc_arity("(Ljava/lang/String"), None);
}

#[test]
fn arity_agrees_with_the_parameters() {
    for d in ["()V", "(IJ)V", "([I[[D)Z", "(Lscala/Function1;I)Ljava/lang/Object;", "(", "x"] {
        assert_eq!(desc_arity(d), desc_params(d).map(|p| p.len()));
    }
}

#[test]
fn named_slot_needs_the_exact_descriptor() {
    let want = vec![Some("I".to_string())];
    assert!(params_match("(I)V", &want));
    assert!(!params_match("(J)V", &want));
}

#[test]
fn unnamed_slot_takes_any_reference_but_no_primitive() {
    let want = vec![None];
    assert!(params_match("(Lscala/collection/IterableOnce;)V", &want));
    assert!(params_match("([I)V", &want));
    assert!(!params_match("(I)V", &want));
}

#[test]
fn params_match_needs_the_same_count_and_a_descriptor() {
    let want = vec![None, Some("J".to_string())];
    assert!(params_match("(Ljava/lang/Object;J)V", &want));
    assert!(!params_match("(Ljava/lang/Object;)V", &want));
    assert!(!params_match("garbage", &want));
}

/// The pieces, written one after another, are the text between `(` and `)`.
#[test]
fn desc_params_pieces_cover_the_parameter_list() {
    let d = "(I[[Ljava/lang/String;JZ)V";
    let ps = desc_params(d).unwrap();
    assert!(ps.iter().all(|p| !p.is_empty()));
    assert!(d.starts_with(&format!("({})", ps.concat())));
    assert_eq!(desc_params("I)V"), None);
}
