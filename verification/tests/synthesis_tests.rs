use mongo_derive::{
    derive_mongo_update_builder, field_operations, get_vec_inner_type, is_identifier_text,
    mongo_nested_fields, slot_value_type, tokenize, Attribute, Data, DeriveInput, Field, FieldTypePair, Fields,
    GenericArgument, MongoOps, NestedField, NestedFieldsArgs, Operation, ParseError,
    PathArguments, PathSegment, Slot, SynthError, Token, TypeShape,
};

fn segment(name: &str, arguments: PathArguments) -> PathSegment {
    PathSegment { ident: name.to_string(), arguments }
}

fn plain(name: &str) -> TypeShape {
    TypeShape::Path(vec![segment(name, PathArguments::Absent)])
}

fn sequence_of(inner: TypeShape) -> TypeShape {
    TypeShape::Path(vec![segment(
        "Vec",
        PathArguments::AngleBracketed(vec![GenericArgument::Type(inner)]),
    )])
}

fn annotation(text: &str) -> Attribute {
    Attribute { path: "mongo_ops".to_string(), arguments: Some(text.to_string()) }
}

fn member(name: &str, ty: TypeShape, attrs: Vec<Attribute>) -> Field {
    Field { ident: name.to_string(), ty, attrs }
}

fn record(name: &str, fields: Vec<Field>) -> DeriveInput {
    DeriveInput { ident: name.to_string(), data: Data::Struct(Fields::Named(fields)) }
}

fn slot(operation: Operation, field: &str, name: &str, position: usize) -> Slot {
    Slot { operation, field: field.to_string(), name: name.to_string(), position }
}

fn strings(items: &[&str]) -> Vec<String> {
    items.iter().map(|s| s.to_string()).collect()
}

fn is_path_named(ty: &TypeShape, name: &str) -> bool {
    match ty {
        TypeShape::Path(segments) => segments.len() == 1 && segments[0].ident == name,
        TypeShape::Other(_) => false,
    }
}

// Lexing

#[test]
fn tokens_of_an_operation_list() {
    assert_eq!(
        tokenize(" set,push ,\tpull\n"),
        Some(vec![
            Token::Ident("set".to_string()),
            Token::Comma,
            Token::Ident("push".to_string()),
            Token::Comma,
            Token::Ident("pull".to_string()),
        ])
    );
}

#[test]
fn tokens_of_a_nested_declaration() {
    assert_eq!(
        tokenize("address: \"Address\""),
        Some(vec![
            Token::Ident("address".to_string()),
            Token::Colon,
            Token::Literal("Address".to_string()),
        ])
    );
}

#[test]
fn identifiers_take_the_longest_match() {
    assert_eq!(tokenize("_a1b2"), Some(vec![Token::Ident("_a1b2".to_string())]));
    assert_eq!(
        tokenize("ab cd"),
        Some(vec![Token::Ident("ab".to_string()), Token::Ident("cd".to_string())])
    );
}

#[test]
fn empty_text_has_no_tokens() {
    assert_eq!(tokenize(""), Some(vec![]));
    assert_eq!(tokenize("  \t\r\n"), Some(vec![]));
}

#[test]
fn literal_may_be_empty_and_hold_spaces() {
    assert_eq!(tokenize("\"\""), Some(vec![Token::Literal(String::new())]));
    assert_eq!(tokenize("\"a b,c:\""), Some(vec![Token::Literal("a b,c:".to_string())]));
}

#[test]
fn characters_outside_the_grammar_are_refused() {
    assert_eq!(tokenize("set; push"), None);
    assert_eq!(tokenize("1set"), None);
    assert_eq!(tokenize("caf\u{e9}"), None);
    assert_eq!(tokenize("a = b"), None);
}

#[test]
fn open_literal_and_escape_are_refused() {
    assert_eq!(tokenize("a: \"Address"), None);
    assert_eq!(tokenize("\""), None);
    assert_eq!(tokenize("\"a\\\"b\""), None);
}

#[test]
fn identifier_test() {
    assert!(is_identifier_text("Address"));
    assert!(is_identifier_text("_"));
    assert!(is_identifier_text("a_1"));
    assert!(!is_identifier_text(""));
    assert!(!is_identifier_text("1a"));
    assert!(!is_identifier_text("Vec<u8>"));
    assert!(!is_identifier_text("my type"));
    assert!(!is_identifier_text("\u{e9}t\u{e9}"));
}

// Annotation parser

#[test]
fn operations_come_in_their_order() {
    assert_eq!(MongoOps::parse("set, push, pull").unwrap().operations, strings(&["set", "push", "pull"]));
    assert_eq!(MongoOps::parse("pull,set").unwrap().operations, strings(&["pull", "set"]));
    assert_eq!(MongoOps::parse("none").unwrap().operations, strings(&["none"]));
}

#[test]
fn operations_may_be_empty_and_end_in_a_comma() {
    assert_eq!(MongoOps::parse("").unwrap().operations, strings(&[]));
    assert_eq!(MongoOps::parse("set,").unwrap().operations, strings(&["set"]));
    assert_eq!(MongoOps::parse("set, push ,").unwrap().operations, strings(&["set", "push"]));
}

#[test]
fn unknown_operation_names_are_kept() {
    assert_eq!(MongoOps::parse("set, inc, set").unwrap().operations, strings(&["set", "inc", "set"]));
}

#[test]
fn malformed_operations_are_refused() {
    assert_eq!(MongoOps::parse(",set").unwrap_err(), ParseError::UnexpectedToken);
    assert_eq!(MongoOps::parse("set,,push").unwrap_err(), ParseError::UnexpectedToken);
    assert_eq!(MongoOps::parse("set push").unwrap_err(), ParseError::UnexpectedToken);
    assert_eq!(MongoOps::parse(",").unwrap_err(), ParseError::UnexpectedToken);
    assert_eq!(MongoOps::parse("set: push").unwrap_err(), ParseError::UnexpectedToken);
    assert_eq!(MongoOps::parse("\"set\"").unwrap_err(), ParseError::UnexpectedToken);
    assert_eq!(MongoOps::parse("set; push").unwrap_err(), ParseError::UnexpectedCharacter);
    assert_eq!(MongoOps::parse("set(1)").unwrap_err(), ParseError::UnexpectedCharacter);
}

#[test]
fn pair_is_read_at_a_position() {
    let tokens = tokenize("a: \"A\", b: \"B\"").unwrap();
    assert_eq!(
        FieldTypePair::parse(&tokens, 0),
        Ok(FieldTypePair { field_name: "a".to_string(), nested_type: "A".to_string() })
    );
    assert_eq!(
        FieldTypePair::parse(&tokens, 4),
        Ok(FieldTypePair { field_name: "b".to_string(), nested_type: "B".to_string() })
    );
    assert_eq!(FieldTypePair::parse(&tokens, 1), Err(ParseError::UnexpectedToken));
    assert_eq!(FieldTypePair::parse(&tokens, 3), Err(ParseError::UnexpectedToken));
    assert_eq!(FieldTypePair::parse(&tokens, 5), Err(ParseError::UnexpectedToken));
    assert_eq!(FieldTypePair::parse(&tokens, 7), Err(ParseError::UnexpectedToken));
    assert_eq!(FieldTypePair::parse(&tokens, 100), Err(ParseError::UnexpectedToken));
    assert_eq!(FieldTypePair::parse(&tokens, usize::MAX), Err(ParseError::UnexpectedToken));
}

#[test]
fn pair_needs_a_quoted_type() {
    let tokens = tokenize("a: A").unwrap();
    assert_eq!(FieldTypePair::parse(&tokens, 0), Err(ParseError::UnexpectedToken));
    let tokens = tokenize("\"a\": \"A\"").unwrap();
    assert_eq!(FieldTypePair::parse(&tokens, 0), Err(ParseError::UnexpectedToken));
    let tokens = tokenize("a, \"A\"").unwrap();
    assert_eq!(FieldTypePair::parse(&tokens, 0), Err(ParseError::UnexpectedToken));
}

#[test]
fn nested_pairs_come_in_their_order() {
    let args = NestedFieldsArgs::parse("address: \"Address\", settings: \"UserSettings\"").unwrap();
    assert_eq!(
        args.pairs,
        vec![
            ("address".to_string(), "Address".to_string()),
            ("settings".to_string(), "UserSettings".to_string()),
        ]
    );
}

#[test]
fn nested_pairs_may_be_empty_and_end_in_a_comma() {
    assert_eq!(NestedFieldsArgs::parse("").unwrap().pairs, vec![]);
    assert_eq!(
        NestedFieldsArgs::parse("a:\"A\",").unwrap().pairs,
        vec![("a".to_string(), "A".to_string())]
    );
}

#[test]
fn malformed_nested_pairs_are_refused() {
    assert_eq!(NestedFieldsArgs::parse("a \"A\"").unwrap_err(), ParseError::UnexpectedToken);
    assert_eq!(NestedFieldsArgs::parse("a: A").unwrap_err(), ParseError::UnexpectedToken);
    assert_eq!(NestedFieldsArgs::parse("a:").unwrap_err(), ParseError::UnexpectedToken);
    assert_eq!(NestedFieldsArgs::parse("a").unwrap_err(), ParseError::UnexpectedToken);
    assert_eq!(NestedFieldsArgs::parse(",").unwrap_err(), ParseError::UnexpectedToken);
    assert_eq!(NestedFieldsArgs::parse("a: \"A\" b: \"B\"").unwrap_err(), ParseError::UnexpectedToken);
    assert_eq!(NestedFieldsArgs::parse("a: \"A\",, b: \"B\"").unwrap_err(), ParseError::UnexpectedToken);
    assert_eq!(NestedFieldsArgs::parse("a: \"A\", b").unwrap_err(), ParseError::UnexpectedToken);
    assert_eq!(NestedFieldsArgs::parse("a: \"A").unwrap_err(), ParseError::UnexpectedCharacter);
    assert_eq!(NestedFieldsArgs::parse("a = \"A\"").unwrap_err(), ParseError::UnexpectedCharacter);
}

// Type shape analyzer

#[test]
fn sequence_gives_its_element_type() {
    let ty = sequence_of(plain("String"));
    assert!(is_path_named(get_vec_inner_type(&ty).unwrap(), "String"));
}

#[test]
fn only_the_last_segment_counts() {
    let ty = TypeShape::Path(vec![
        segment("std", PathArguments::Absent),
        segment("vec", PathArguments::Absent),
        segment("Vec", PathArguments::AngleBracketed(vec![GenericArgument::Type(plain("u8"))])),
    ]);
    assert!(is_path_named(get_vec_inner_type(&ty).unwrap(), "u8"));

    let ty = TypeShape::Path(vec![
        segment("Vec", PathArguments::AngleBracketed(vec![GenericArgument::Type(plain("u8"))])),
        segment("Item", PathArguments::Absent),
    ]);
    assert!(get_vec_inner_type(&ty).is_none());
}

#[test]
fn nested_sequence_gives_the_inner_sequence() {
    let ty = sequence_of(sequence_of(plain("String")));
    let inner = get_vec_inner_type(&ty).unwrap();
    assert!(is_path_named(get_vec_inner_type(inner).unwrap(), "String"));
}

#[test]
fn first_argument_decides() {
    let ty = TypeShape::Path(vec![segment(
        "Vec",
        PathArguments::AngleBracketed(vec![
            GenericArgument::Type(plain("u8")),
            GenericArgument::Type(plain("Global")),
        ]),
    )]);
    assert!(is_path_named(get_vec_inner_type(&ty).unwrap(), "u8"));

    let ty = TypeShape::Path(vec![segment(
        "Vec",
        PathArguments::AngleBracketed(vec![
            GenericArgument::Other("'a".to_string()),
            GenericArgument::Type(plain("u8")),
        ]),
    )]);
    assert!(get_vec_inner_type(&ty).is_none());
}

#[test]
fn other_shapes_are_no_sequences() {
    assert!(get_vec_inner_type(&plain("String")).is_none());
    assert!(get_vec_inner_type(&plain("Vec")).is_none());
    assert!(get_vec_inner_type(&TypeShape::Path(vec![])).is_none());
    assert!(get_vec_inner_type(&TypeShape::Other("&[u8]".to_string())).is_none());
    let empty = TypeShape::Path(vec![segment("Vec", PathArguments::AngleBracketed(vec![]))]);
    assert!(get_vec_inner_type(&empty).is_none());
    let round =
        TypeShape::Path(vec![segment("Vec", PathArguments::Parenthesized("u8".to_string()))]);
    assert!(get_vec_inner_type(&round).is_none());
    let option = TypeShape::Path(vec![segment(
        "Option",
        PathArguments::AngleBracketed(vec![GenericArgument::Type(plain("String"))]),
    )]);
    assert!(get_vec_inner_type(&option).is_none());
    let lower = TypeShape::Path(vec![segment(
        "vec",
        PathArguments::AngleBracketed(vec![GenericArgument::Type(plain("String"))]),
    )]);
    assert!(get_vec_inner_type(&lower).is_none());
}

// Builder synthesizer

#[test]
fn slots_follow_the_fields_and_the_order_push_pull_set() {
    let input = record(
        "User",
        vec![
            member("name", plain("String"), vec![annotation("set")]),
            member("tags", sequence_of(plain("String")), vec![annotation("set, push, pull")]),
            member("secret", plain("String"), vec![annotation("none")]),
            member("age", plain("u32"), vec![]),
        ],
    );
    let builder = derive_mongo_update_builder(&input).unwrap();
    assert_eq!(builder.name, "UserUpdateBuilder");
    assert_eq!(
        builder.slots,
        vec![
            slot(Operation::SetField, "name", "set_name", 0),
            slot(Operation::PushItem, "tags", "push_tags", 1),
            slot(Operation::PullItem, "tags", "pull_tags", 1),
            slot(Operation::SetField, "tags", "set_tags", 1),
            slot(Operation::SetField, "age", "set_age", 3),
        ]
    );
    assert!(builder.nested.is_empty());
}

#[test]
fn slot_takes_the_declared_type_or_the_element_type() {
    let make = || {
        vec![
            member("name", plain("String"), vec![annotation("set")]),
            member("tags", sequence_of(plain("Tag")), vec![annotation("set, push, pull")]),
        ]
    };
    let fields = make();
    let builder = derive_mongo_update_builder(&record("User", make())).unwrap();
    let types: Vec<String> = builder
        .slots
        .iter()
        .map(|slot| match slot_value_type(&fields, slot).unwrap() {
            TypeShape::Path(segments) => segments.last().unwrap().ident.clone(),
            TypeShape::Other(text) => text.clone(),
        })
        .collect();
    assert_eq!(types, strings(&["String", "Tag", "Tag", "Vec"]));
}

#[test]
fn slot_of_another_structure_has_no_type_here() {
    let fields = vec![member("name", plain("String"), vec![])];
    let far = slot(Operation::SetField, "other", "set_other", 5);
    assert!(slot_value_type(&fields, &far).is_none());
    let no_sequence = slot(Operation::PushItem, "name", "push_name", 0);
    assert!(slot_value_type(&fields, &no_sequence).is_none());
}

#[test]
fn unannotated_field_is_as_if_annotated_set() {
    let bare = record("T", vec![member("x", sequence_of(plain("u8")), vec![])]);
    let annotated = record("T", vec![member("x", sequence_of(plain("u8")), vec![annotation("set")])]);
    let empty = record("T", vec![member("x", sequence_of(plain("u8")), vec![annotation("")])]);
    let expected = vec![slot(Operation::SetField, "x", "set_x", 0)];
    assert_eq!(derive_mongo_update_builder(&bare).unwrap().slots, expected);
    assert_eq!(derive_mongo_update_builder(&annotated).unwrap().slots, expected);
    assert_eq!(derive_mongo_update_builder(&empty).unwrap().slots, expected);
}

#[test]
fn none_excludes_whatever_else_is_asked() {
    let input = record(
        "T",
        vec![
            member("a", sequence_of(plain("u8")), vec![annotation("set, none, push")]),
            member("b", plain("u8"), vec![annotation("none")]),
        ],
    );
    assert_eq!(derive_mongo_update_builder(&input).unwrap().slots, vec![]);
}

#[test]
fn push_and_pull_need_a_sequence() {
    let input = record(
        "T",
        vec![
            member("a", plain("String"), vec![annotation("push, pull")]),
            member("b", plain("String"), vec![annotation("set, push")]),
            member("c", sequence_of(plain("u8")), vec![annotation("pull")]),
        ],
    );
    assert_eq!(
        derive_mongo_update_builder(&input).unwrap().slots,
        vec![
            slot(Operation::SetField, "b", "set_b", 1),
            slot(Operation::PullItem, "c", "pull_c", 2),
        ]
    );
}

#[test]
fn unknown_operation_gives_no_slot() {
    let input = record("T", vec![member("a", plain("u8"), vec![annotation("inc")])]);
    assert_eq!(derive_mongo_update_builder(&input).unwrap().slots, vec![]);
}

#[test]
fn last_annotation_decides() {
    let attrs = vec![
        annotation("set"),
        Attribute { path: "serde".to_string(), arguments: Some("rename = \"x\"".to_string()) },
        annotation("none"),
    ];
    assert_eq!(field_operations(&attrs), Ok(strings(&["none"])));
    let input = record("T", vec![member("a", plain("u8"), attrs)]);
    assert_eq!(derive_mongo_update_builder(&input).unwrap().slots, vec![]);

    let attrs = vec![annotation("none"), annotation("set")];
    let input = record("T", vec![member("a", plain("u8"), attrs)]);
    assert_eq!(
        derive_mongo_update_builder(&input).unwrap().slots,
        vec![slot(Operation::SetField, "a", "set_a", 0)]
    );
}

#[test]
fn other_annotations_are_not_read() {
    let attrs = vec![
        Attribute { path: "serde".to_string(), arguments: Some("skip; ???".to_string()) },
        Attribute { path: "doc".to_string(), arguments: None },
    ];
    assert_eq!(field_operations(&attrs), Ok(strings(&[])));
}

#[test]
fn malformed_annotation_fails_the_synthesis() {
    let input = record(
        "T",
        vec![
            member("a", plain("u8"), vec![annotation("set")]),
            member("b", plain("u8"), vec![annotation("set push")]),
            member("c", plain("u8"), vec![annotation("set; push")]),
        ],
    );
    assert_eq!(
        derive_mongo_update_builder(&input).unwrap_err(),
        SynthError::Annotation(ParseError::UnexpectedToken)
    );
    let input = record("T", vec![member("c", plain("u8"), vec![annotation("#")])]);
    assert_eq!(
        derive_mongo_update_builder(&input).unwrap_err(),
        SynthError::Annotation(ParseError::UnexpectedCharacter)
    );
}

#[test]
fn annotation_without_arguments_fails_the_synthesis() {
    let bare = Attribute { path: "mongo_ops".to_string(), arguments: None };
    assert_eq!(field_operations(&[bare.clone()].to_vec()), Err(ParseError::MissingArguments));
    let input = record("T", vec![member("a", plain("u8"), vec![bare, annotation("set")])]);
    assert_eq!(
        derive_mongo_update_builder(&input).unwrap_err(),
        SynthError::Annotation(ParseError::MissingArguments)
    );
}

#[test]
fn only_structures_with_named_fields_are_accepted() {
    let tuple = DeriveInput { ident: "T".to_string(), data: Data::Struct(Fields::Unnamed) };
    let unit = DeriveInput { ident: "T".to_string(), data: Data::Struct(Fields::Unit) };
    let choice = DeriveInput { ident: "T".to_string(), data: Data::Enum };
    let overlay = DeriveInput { ident: "T".to_string(), data: Data::Union };
    assert_eq!(derive_mongo_update_builder(&tuple).unwrap_err(), SynthError::OnlyNamedFields);
    assert_eq!(derive_mongo_update_builder(&unit).unwrap_err(), SynthError::OnlyNamedFields);
    assert_eq!(derive_mongo_update_builder(&choice).unwrap_err(), SynthError::OnlyStructs);
    assert_eq!(derive_mongo_update_builder(&overlay).unwrap_err(), SynthError::OnlyStructs);
}

#[test]
fn structure_without_fields_has_a_builder_without_slots() {
    let builder = derive_mongo_update_builder(&record("Empty", vec![])).unwrap();
    assert_eq!(builder.name, "EmptyUpdateBuilder");
    assert_eq!(builder.slots, vec![]);
}

// Nested-field extender

#[test]
fn nested_methods_are_named_after_field_and_type() {
    let input = record("User", vec![]);
    let methods =
        mongo_nested_fields("address: \"Address\", settings: \"UserSettings\"", &input).unwrap();
    assert_eq!(methods.builder, "UserUpdateBuilder");
    assert_eq!(
        methods.fields,
        vec![
            NestedField {
                field: "address".to_string(),
                nested_type: "Address".to_string(),
                nested_builder: "AddressUpdateBuilder".to_string(),
                with_method: "with_address".to_string(),
            },
            NestedField {
                field: "settings".to_string(),
                nested_type: "UserSettings".to_string(),
                nested_builder: "UserSettingsUpdateBuilder".to_string(),
                with_method: "with_settings".to_string(),
            },
        ]
    );
}

#[test]
fn nested_declaration_may_be_empty() {
    let methods = mongo_nested_fields("", &record("User", vec![])).unwrap();
    assert_eq!(methods.builder, "UserUpdateBuilder");
    assert_eq!(methods.fields, vec![]);
}

#[test]
fn nested_declaration_does_not_look_at_the_fields() {
    let choice = DeriveInput { ident: "Shape".to_string(), data: Data::Enum };
    let methods = mongo_nested_fields("a: \"A\"", &choice).unwrap();
    assert_eq!(methods.builder, "ShapeUpdateBuilder");
    assert_eq!(methods.fields.len(), 1);
}

#[test]
fn malformed_nested_declaration_fails_the_synthesis() {
    let input = record("User", vec![]);
    assert_eq!(
        mongo_nested_fields("address: Address", &input).unwrap_err(),
        SynthError::Annotation(ParseError::UnexpectedToken)
    );
    assert_eq!(
        mongo_nested_fields("address: \"Address", &input).unwrap_err(),
        SynthError::Annotation(ParseError::UnexpectedCharacter)
    );
}

#[test]
fn nested_type_must_be_named_by_an_identifier() {
    let input = record("User", vec![]);
    assert_eq!(
        mongo_nested_fields("a: \"A\", tags: \"Vec<u8>\"", &input).unwrap_err(),
        SynthError::InvalidTypeName
    );
    assert_eq!(mongo_nested_fields("a: \"\"", &input).unwrap_err(), SynthError::InvalidTypeName);
    assert_eq!(
        mongo_nested_fields("a: \"9lives\"", &input).unwrap_err(),
        SynthError::InvalidTypeName
    );
}
