use bson::{Bson, Document};
use mongo_derive::{
    derive_mongo_update_builder, mongo_nested_fields, Attribute, BuilderSpec, Data, DeriveInput,
    Field, Fields, GenericArgument, Operation, PathArguments, PathSegment, TypeShape,
    UpdateBuilder, UpdateError,
};

// Test models

fn named(name: &str) -> TypeShape {
    TypeShape::Path(vec![PathSegment {
        ident: name.to_string(),
        arguments: PathArguments::Absent,
    }])
}

fn vec_of(inner: TypeShape) -> TypeShape {
    TypeShape::Path(vec![PathSegment {
        ident: "Vec".to_string(),
        arguments: PathArguments::AngleBracketed(vec![GenericArgument::Type(inner)]),
    }])
}

fn field(name: &str, ty: TypeShape, ops: Option<&str>) -> Field {
    let attrs = match ops {
        Some(text) => vec![Attribute {
            path: "mongo_ops".to_string(),
            arguments: Some(text.to_string()),
        }],
        None => vec![],
    };
    Field { ident: name.to_string(), ty, attrs }
}

fn structure(name: &str, fields: Vec<Field>) -> DeriveInput {
    DeriveInput { ident: name.to_string(), data: Data::Struct(Fields::Named(fields)) }
}

fn address() -> DeriveInput {
    structure(
        "Address",
        vec![
            field("street", named("String"), Some("set")),
            field("city", named("String"), Some("set")),
        ],
    )
}

fn preferences() -> DeriveInput {
    structure(
        "Preferences",
        vec![
            field("theme", named("String"), Some("set")),
            field("language", named("String"), Some("set")),
        ],
    )
}

fn user() -> DeriveInput {
    structure(
        "User",
        vec![
            field("name", named("String"), Some("set")),
            field("email", named("String"), Some("set")),
            field("tags", vec_of(named("String")), Some("set, push, pull")),
            field("password_hash", named("String"), Some("none")),
            field("address", named("Address"), None),
            field("preferences", named("Preferences"), None),
        ],
    )
}

fn address_builder() -> BuilderSpec {
    derive_mongo_update_builder(&address()).unwrap()
}

fn preferences_builder() -> BuilderSpec {
    derive_mongo_update_builder(&preferences()).unwrap()
}

fn user_update_builder() -> UpdateBuilder {
    let input = user();
    let spec = derive_mongo_update_builder(&input).unwrap();
    let nested =
        mongo_nested_fields("address: \"Address\", preferences: \"Preferences\"", &input).unwrap();
    spec.with_nested_methods(nested).update_builder()
}

fn text(value: &str) -> Result<Bson, bson::ser::Error> {
    bson::to_bson(value)
}

fn failed() -> Result<Bson, bson::ser::Error> {
    bson::to_bson(&u64::MAX)
}

// Helper function to extract a document from a specific MongoDB operator
fn get_operator_doc<'a>(doc: &'a Document, operator: &'a str) -> Option<&'a Document> {
    match doc.get(operator) {
        Some(Bson::Document(operator_doc)) => Some(operator_doc),
        _ => None,
    }
}

fn document(entries: Vec<(&str, Bson)>) -> Document {
    let mut doc = Document::new();
    for (key, value) in entries {
        doc.insert(key, value);
    }
    doc
}

fn string(value: &str) -> Bson {
    Bson::String(value.to_string())
}

fn operator(name: &str, value: Bson) -> Bson {
    Bson::Document(document(vec![(name, Bson::Array(vec![value]))]))
}

#[test]
fn test_basic_set_operations() {
    // Create a simple update
    let update = user_update_builder()
        .set("name", bson::to_bson(&"John Doe".to_string()))
        .set("email", bson::to_bson(&"john@example.com".to_string()))
        .build()
        .unwrap();

    // Extract $set document
    let set_doc = get_operator_doc(&update, "$set").expect("$set operator should exist");

    // Verify values
    assert_eq!(set_doc.get("name").unwrap().as_str().unwrap(), "John Doe");
    assert_eq!(
        set_doc.get("email").unwrap().as_str().unwrap(),
        "john@example.com"
    );
}

#[test]
fn test_array_operations() {
    // Create an update with array operations
    let update = user_update_builder()
        .push("tags", bson::to_bson(&"mongodb".to_string()))
        .pull("tags", bson::to_bson(&"rust".to_string()))
        .build()
        .unwrap();

    // Verify $push operation
    let push_doc = get_operator_doc(&update, "$push").expect("$push operator should exist");
    let push_tags = push_doc.get("tags").unwrap().as_document().unwrap();
    let each_array = push_tags.get("$each").unwrap().as_array().unwrap();
    assert_eq!(each_array[0].as_str().unwrap(), "mongodb");

    // Verify $pull operation
    let pull_doc = get_operator_doc(&update, "$pull").expect("$pull operator should exist");
    let pull_tags = pull_doc.get("tags").unwrap().as_document().unwrap();
    let in_array = pull_tags.get("$in").unwrap().as_array().unwrap();
    assert_eq!(in_array[0].as_str().unwrap(), "rust");
}

#[test]
fn test_excluded_fields() {
    // Create an update attempting to set a field with mongo_ops(none)
    let update = user_update_builder()
        .set("name", bson::to_bson(&"John Doe".to_string()))
        .build()
        .unwrap();

    // Extract $set document
    let set_doc = get_operator_doc(&update, "$set").expect("$set operator should exist");

    // Verify the password_hash field doesn't exist in the update
    assert!(set_doc.get("password_hash").is_none());
}

#[test]
fn test_nested_fields() {
    // Create an update with nested fields
    let update = user_update_builder()
        .with_nested("address", &address_builder(), |builder| {
            builder
                .set("city", bson::to_bson(&"New York".to_string()))
                .set("street", bson::to_bson(&"123 Broadway".to_string()))
        })
        .with_nested("preferences", &preferences_builder(), |builder| {
            builder
                .set("theme", bson::to_bson(&"dark".to_string()))
                .set("language", bson::to_bson(&"en".to_string()))
        })
        .build()
        .unwrap();

    // Extract $set document
    let set_doc = get_operator_doc(&update, "$set").expect("$set operator should exist");

    // Verify nested fields
    assert_eq!(
        set_doc.get("address.city").unwrap().as_str().unwrap(),
        "New York"
    );
    assert_eq!(
        set_doc.get("address.street").unwrap().as_str().unwrap(),
        "123 Broadway"
    );
    assert_eq!(
        set_doc.get("preferences.theme").unwrap().as_str().unwrap(),
        "dark"
    );
    assert_eq!(
        set_doc
            .get("preferences.language")
            .unwrap()
            .as_str()
            .unwrap(),
        "en"
    );
}

#[test]
fn test_direct_path_access() {
    // Create an update with direct path access
    let update = user_update_builder()
        .nested("address", "zip_code", bson::to_bson(&"10001"))
        .unwrap()
        .nested("preferences", "font_size", bson::to_bson(&14))
        .unwrap()
        .set_field("metadata.created_at", bson::to_bson(&"2025-03-06"))
        .unwrap()
        .build()
        .unwrap();

    // Extract $set document
    let set_doc = get_operator_doc(&update, "$set").expect("$set operator should exist");

    // Verify direct path fields
    assert_eq!(
        set_doc.get("address.zip_code").unwrap().as_str().unwrap(),
        "10001"
    );
    assert_eq!(
        set_doc
            .get("preferences.font_size")
            .unwrap()
            .as_i32()
            .unwrap(),
        14
    );
    assert_eq!(
        set_doc
            .get("metadata.created_at")
            .unwrap()
            .as_str()
            .unwrap(),
        "2025-03-06"
    );
}

#[test]
fn complete_example_gives_the_whole_document() {
    let account = structure(
        "Account",
        vec![
            field("name", named("String"), Some("set")),
            field("tags", vec_of(named("String")), Some("set, push, pull")),
            field("secret", named("String"), Some("none")),
            field("addr", named("Address"), None),
        ],
    );
    let home = structure("Address", vec![field("city", named("String"), Some("set"))]);
    let spec = derive_mongo_update_builder(&account)
        .unwrap()
        .with_nested_methods(mongo_nested_fields("addr: \"Address\"", &account).unwrap());
    let home_spec = derive_mongo_update_builder(&home).unwrap();

    let update = spec
        .update_builder()
        .set("name", text("A"))
        .push("tags", text("x"))
        .pull("tags", text("y"))
        .with_nested("addr", &home_spec, |b| b.set("city", text("NYC")))
        .build()
        .unwrap();

    let expected = document(vec![
        (
            "$set",
            Bson::Document(document(vec![("name", string("A")), ("addr.city", string("NYC"))])),
        ),
        ("$push", Bson::Document(document(vec![("tags", operator("$each", string("x")))]))),
        ("$pull", Bson::Document(document(vec![("tags", operator("$in", string("y")))]))),
    ]);
    assert_eq!(update, expected);
    let keys: Vec<&String> = update.keys().collect();
    assert_eq!(keys, vec!["$set", "$push", "$pull"]);
}

#[test]
fn empty_builder_gives_an_empty_document() {
    let update = user_update_builder().build().unwrap();
    assert!(update.is_empty());
    assert_eq!(update, Document::new());
}

#[test]
fn only_buckets_with_entries_are_present() {
    let update = user_update_builder().push("tags", text("x")).build().unwrap();
    assert!(update.get("$set").is_none());
    assert!(update.get("$pull").is_none());
    assert_eq!(
        update,
        document(vec![(
            "$push",
            Bson::Document(document(vec![("tags", operator("$each", string("x")))]))
        )])
    );
}

#[test]
fn set_holds_exactly_the_given_value() {
    let update = user_update_builder()
        .set("email", text("a@b.c"))
        .set("name", text("A"))
        .build()
        .unwrap();
    let expected = document(vec![(
        "$set",
        Bson::Document(document(vec![("name", string("A")), ("email", string("a@b.c"))])),
    )]);
    assert_eq!(update, expected);
}

#[test]
fn set_of_a_sequence_field_holds_the_whole_sequence() {
    let tags = vec!["a".to_string(), "b".to_string()];
    let update = user_update_builder().set("tags", bson::to_bson(&tags)).build().unwrap();
    let set_doc = get_operator_doc(&update, "$set").unwrap();
    assert_eq!(set_doc.get("tags"), Some(&Bson::Array(vec![string("a"), string("b")])));
}

#[test]
fn second_set_replaces_the_first() {
    let update =
        user_update_builder().set("name", text("A")).set("name", text("B")).build().unwrap();
    let set_doc = get_operator_doc(&update, "$set").unwrap();
    assert_eq!(set_doc.len(), 1);
    assert_eq!(set_doc.get("name"), Some(&string("B")));
}

#[test]
fn second_push_replaces_the_first() {
    // Known limitation: one element per field and builder, not a list.
    let update =
        user_update_builder().push("tags", text("v1")).push("tags", text("v2")).build().unwrap();
    let push_doc = get_operator_doc(&update, "$push").unwrap();
    let each = push_doc.get_document("tags").unwrap().get_array("$each").unwrap();
    assert_eq!(each, &vec![string("v2")]);
}

#[test]
fn second_pull_replaces_the_first() {
    let update =
        user_update_builder().pull("tags", text("v1")).pull("tags", text("v2")).build().unwrap();
    let pull_doc = get_operator_doc(&update, "$pull").unwrap();
    let any_of = pull_doc.get_document("tags").unwrap().get_array("$in").unwrap();
    assert_eq!(any_of, &vec![string("v2")]);
}

#[test]
fn excluded_field_has_no_method_and_never_appears() {
    let builder = user_update_builder();
    assert!(!builder.has_method(Operation::SetField, "password_hash"));
    assert!(!builder.has_method(Operation::PushItem, "password_hash"));
    assert!(!builder.has_method(Operation::PullItem, "password_hash"));
    assert!(builder.has_method(Operation::SetField, "name"));

    let update = builder
        .set("password_hash", text("x"))
        .push("password_hash", text("y"))
        .pull("password_hash", text("z"))
        .set("name", text("A"))
        .push("tags", text("t"))
        .pull("tags", text("u"))
        .nested("address", "city", text("NYC"))
        .unwrap()
        .build()
        .unwrap();
    for bucket in ["$set", "$push", "$pull"] {
        let doc = get_operator_doc(&update, bucket).unwrap();
        assert!(doc.get("password_hash").is_none());
    }
}

#[test]
fn call_for_a_missing_method_changes_nothing() {
    let update = user_update_builder()
        .push("name", text("x"))
        .pull("email", text("y"))
        .set("unknown", text("z"))
        .build()
        .unwrap();
    assert_eq!(update, Document::new());
}

#[test]
fn failed_value_for_a_missing_method_is_ignored() {
    let update = user_update_builder().set("password_hash", failed()).build().unwrap();
    assert_eq!(update, Document::new());
}

#[test]
fn unannotated_field_can_be_set() {
    let builder = user_update_builder();
    assert!(builder.has_method(Operation::SetField, "address"));
    assert!(!builder.has_method(Operation::PushItem, "address"));
    let update = builder.set("address", text("somewhere")).build().unwrap();
    let set_doc = get_operator_doc(&update, "$set").unwrap();
    assert_eq!(set_doc.get("address"), Some(&string("somewhere")));
}

#[test]
fn path_update_replaces_a_slot_of_the_same_name() {
    let update = user_update_builder()
        .set_field("name", text("by path"))
        .unwrap()
        .set("name", text("by slot"))
        .build()
        .unwrap();
    let set_doc = get_operator_doc(&update, "$set").unwrap();
    assert_eq!(set_doc.len(), 1);
    assert_eq!(set_doc.get("name"), Some(&string("by path")));
}

#[test]
fn last_write_to_a_path_wins() {
    let update = user_update_builder()
        .set_field("a.b", text("1"))
        .unwrap()
        .set_field("a.c", text("2"))
        .unwrap()
        .set_field("a.b", text("3"))
        .unwrap()
        .build()
        .unwrap();
    assert_eq!(
        update,
        document(vec![(
            "$set",
            Bson::Document(document(vec![("a.b", string("3")), ("a.c", string("2"))]))
        )])
    );
}

#[test]
fn set_field_fails_with_the_serialization_failure() {
    let result = user_update_builder().set_field("a", failed());
    match result {
        Err(UpdateError::Serialization(bson::ser::Error::UnsignedIntegerExceededRange(n))) => {
            assert_eq!(n, u64::MAX)
        }
        _ => panic!("expected the serialization failure"),
    }
}

#[test]
fn direct_path_fails_with_the_serialization_failure() {
    let result = user_update_builder().nested("address", "zip_code", failed());
    assert!(matches!(result, Err(UpdateError::Serialization(_))));
}

#[test]
fn direct_path_is_ignored_without_a_nested_declaration() {
    let update = user_update_builder()
        .nested("name", "first", text("A"))
        .unwrap()
        .nested("name", "last", failed())
        .unwrap()
        .build()
        .unwrap();
    assert_eq!(update, Document::new());
}

#[test]
fn build_fails_and_returns_no_document() {
    let result = user_update_builder().set("name", text("A")).set("email", failed()).build();
    assert!(matches!(
        result,
        Err(UpdateError::Serialization(bson::ser::Error::UnsignedIntegerExceededRange(_)))
    ));
}

#[test]
fn build_reports_the_first_failure_in_walk_order() {
    // Slots are walked set, push, pull: the failed `set` is found before the
    // failed `push`, though the push was made first.
    let too_big = bson::to_bson(&(u64::MAX - 1));
    let result =
        user_update_builder().push("tags", too_big).set("email", failed()).build();
    match result {
        Err(UpdateError::Serialization(bson::ser::Error::UnsignedIntegerExceededRange(n))) => {
            assert_eq!(n, u64::MAX)
        }
        _ => panic!("expected the failure of the set slot"),
    }
    let result = user_update_builder()
        .pull("tags", failed())
        .push("tags", bson::to_bson(&(u64::MAX - 1)))
        .build();
    match result {
        Err(UpdateError::Serialization(bson::ser::Error::UnsignedIntegerExceededRange(n))) => {
            assert_eq!(n, u64::MAX - 1)
        }
        _ => panic!("expected the failure of the push slot"),
    }
}

#[test]
fn nested_set_reaches_the_parent() {
    let update = user_update_builder()
        .with_nested("address", &address_builder(), |b| b.set("city", text("NYC")))
        .build()
        .unwrap();
    assert_eq!(
        update,
        document(vec![("$set", Bson::Document(document(vec![("address.city", string("NYC"))])))])
    );
}

#[test]
fn nested_path_updates_reach_the_parent() {
    let update = user_update_builder()
        .with_nested("address", &address_builder(), |b| {
            b.set("city", text("NYC")).set_field("geo.lat", text("40")).unwrap()
        })
        .build()
        .unwrap();
    let set_doc = get_operator_doc(&update, "$set").unwrap();
    assert_eq!(set_doc.len(), 2);
    assert_eq!(set_doc.get("address.city"), Some(&string("NYC")));
    assert_eq!(set_doc.get("address.geo.lat"), Some(&string("40")));
}

#[test]
fn nested_push_and_pull_are_lost() {
    let tagged = structure(
        "Address",
        vec![
            field("city", named("String"), Some("set")),
            field("labels", vec_of(named("String")), Some("push, pull")),
        ],
    );
    let tagged_spec = derive_mongo_update_builder(&tagged).unwrap();
    let update = user_update_builder()
        .with_nested("address", &tagged_spec, |b| {
            b.set("city", text("NYC")).push("labels", text("home")).pull("labels", text("work"))
        })
        .build()
        .unwrap();
    assert_eq!(
        update,
        document(vec![("$set", Bson::Document(document(vec![("address.city", string("NYC"))])))])
    );
}

#[test]
fn nested_build_failure_is_swallowed() {
    let update = user_update_builder()
        .set("name", text("A"))
        .with_nested("address", &address_builder(), |b| {
            b.set("city", text("NYC")).set("street", failed())
        })
        .build()
        .unwrap();
    assert_eq!(
        update,
        document(vec![("$set", Bson::Document(document(vec![("name", string("A"))])))])
    );
}

#[test]
fn nested_builder_starts_fresh_each_time() {
    let update = user_update_builder()
        .with_nested("address", &address_builder(), |b| b.set("city", text("NYC")))
        .with_nested("address", &address_builder(), |b| b.set("street", text("Broadway")))
        .build()
        .unwrap();
    let set_doc = get_operator_doc(&update, "$set").unwrap();
    assert_eq!(set_doc.len(), 2);
    assert_eq!(set_doc.get("address.city"), Some(&string("NYC")));
    assert_eq!(set_doc.get("address.street"), Some(&string("Broadway")));
}

#[test]
fn with_nested_is_ignored_without_a_declaration() {
    let mut called = false;
    let update = user_update_builder()
        .with_nested("name", &address_builder(), |b| {
            called = true;
            b.set("city", text("NYC"))
        })
        .build()
        .unwrap();
    assert!(!called);
    assert_eq!(update, Document::new());
}

#[test]
fn with_nested_is_ignored_for_a_builder_of_another_type() {
    let update = user_update_builder()
        .with_nested("address", &preferences_builder(), |b| b.set("theme", text("dark")))
        .build()
        .unwrap();
    assert_eq!(update, Document::new());
}

#[test]
fn absorb_checks_the_type_of_the_configured_builder() {
    let configured = preferences_builder().update_builder().set("theme", text("dark"));
    let update = user_update_builder().absorb("address", configured).build().unwrap();
    assert_eq!(update, Document::new());

    let configured = address_builder().update_builder().set("city", text("NYC"));
    let update = user_update_builder().absorb("address", configured).build().unwrap();
    assert_eq!(
        update,
        document(vec![("$set", Bson::Document(document(vec![("address.city", string("NYC"))])))])
    );
}

#[test]
fn nested_methods_of_another_builder_are_not_taken() {
    let spec = derive_mongo_update_builder(&user()).unwrap();
    let foreign = mongo_nested_fields("address: \"Address\"", &address()).unwrap();
    let update = spec
        .with_nested_methods(foreign)
        .update_builder()
        .nested("address", "city", text("NYC"))
        .unwrap()
        .build()
        .unwrap();
    assert_eq!(update, Document::new());
}

#[test]
fn builder_can_be_cloned_before_build() {
    let builder = user_update_builder().set("name", text("A"));
    let first = builder.clone().build().unwrap();
    let second = builder.set("email", text("e")).build().unwrap();
    assert_eq!(get_operator_doc(&first, "$set").unwrap().len(), 1);
    assert_eq!(get_operator_doc(&second, "$set").unwrap().len(), 2);
}

fn keys(doc: &Document) -> Vec<String> {
    doc.keys().cloned().collect()
}

#[test]
fn set_entries_come_in_the_order_of_the_slots() {
    // The calls are made in another order than the fields are declared.
    let update = user_update_builder()
        .set("tags", bson::to_bson(&vec!["t".to_string()]))
        .set("email", text("e"))
        .set("name", text("n"))
        .build()
        .unwrap();
    let set_doc = get_operator_doc(&update, "$set").unwrap();
    assert_eq!(keys(set_doc), vec!["name", "email", "tags"]);
}

#[test]
fn path_entries_follow_the_slots_in_the_order_of_their_first_write() {
    let update = user_update_builder()
        .set_field("z", text("1"))
        .unwrap()
        .set_field("a", text("2"))
        .unwrap()
        .set("email", text("e"))
        .set_field("z", text("3"))
        .unwrap()
        .build()
        .unwrap();
    let set_doc = get_operator_doc(&update, "$set").unwrap();
    assert_eq!(keys(set_doc), vec!["email", "z", "a"]);
    assert_eq!(set_doc.get("z"), Some(&string("3")));
}

#[test]
fn path_update_keeps_the_place_of_the_slot_that_it_replaces() {
    let update = user_update_builder()
        .set_field("email", text("by path"))
        .unwrap()
        .set("name", text("n"))
        .set("email", text("by slot"))
        .build()
        .unwrap();
    let set_doc = get_operator_doc(&update, "$set").unwrap();
    assert_eq!(keys(set_doc), vec!["name", "email"]);
    assert_eq!(set_doc.get("email"), Some(&string("by path")));
}

#[test]
fn nested_entries_keep_the_order_of_the_nested_bucket() {
    let update = user_update_builder()
        .with_nested("address", &address_builder(), |b| {
            b.set_field("zip", text("1")).unwrap().set("city", text("c")).set("street", text("s"))
        })
        .build()
        .unwrap();
    let set_doc = get_operator_doc(&update, "$set").unwrap();
    assert_eq!(keys(set_doc), vec!["address.street", "address.city", "address.zip"]);
}

#[test]
fn buckets_come_in_the_order_set_push_pull() {
    let update = user_update_builder()
        .pull("tags", text("y"))
        .push("tags", text("x"))
        .set("name", text("A"))
        .build()
        .unwrap();
    assert_eq!(keys(&update), vec!["$set", "$push", "$pull"]);
    let update =
        user_update_builder().pull("tags", text("y")).set("name", text("A")).build().unwrap();
    assert_eq!(keys(&update), vec!["$set", "$pull"]);
}

#[test]
fn operator_entry_has_one_key_and_one_element() {
    let update = user_update_builder().push("tags", text("x")).build().unwrap();
    let entry = get_operator_doc(&update, "$push").unwrap().get_document("tags").unwrap();
    assert_eq!(keys(entry), vec!["$each"]);
    assert_eq!(entry.get_array("$each").unwrap().len(), 1);
}
