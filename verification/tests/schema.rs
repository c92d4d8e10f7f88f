use trek::schema::{
    validate_schema, EndpointDefinition, EndpointType, EnumDefinition, EventDefinition,
    FieldDefinition, NameKind, NuiSchema, SchemaError, TypeDefinition,
};

fn prim(s: &str) -> TypeDefinition {
    TypeDefinition::Primitive(s.to_string())
}

fn object(fields: &[(&str, TypeDefinition)]) -> TypeDefinition {
    let mut v: Vec<FieldDefinition> = Vec::new();
    for (name, ty) in fields {
        v.push(FieldDefinition { name: name.to_string(), ty: clone_type(ty) });
    }
    v.sort_by(|a, b| a.name.cmp(&b.name));
    TypeDefinition::Object(v)
}

fn clone_type(t: &TypeDefinition) -> TypeDefinition {
    match t {
        TypeDefinition::Primitive(s) => TypeDefinition::Primitive(s.clone()),
        TypeDefinition::Array(items) => TypeDefinition::Array(items.iter().map(clone_type).collect()),
        TypeDefinition::Object(fields) => TypeDefinition::Object(
            fields
                .iter()
                .map(|f| FieldDefinition { name: f.name.clone(), ty: clone_type(&f.ty) })
                .collect(),
        ),
    }
}

fn enum_def(name: &str, values: &[&str]) -> EnumDefinition {
    EnumDefinition {
        name: name.to_string(),
        description: None,
        values: values.iter().map(|v| v.to_string()).collect(),
    }
}

fn event(name: &str, payload: TypeDefinition) -> EventDefinition {
    EventDefinition { name: name.to_string(), description: None, payload }
}

fn schema(enums: Vec<EnumDefinition>, events: Vec<EventDefinition>) -> NuiSchema {
    NuiSchema {
        version: "1.0".to_string(),
        resource: "test".to_string(),
        enums,
        events,
        endpoints: Vec::new(),
    }
}

#[test]
fn test_validation_unsupported_type_fails() {
    let s = schema(vec![], vec![event("badEvent", object(&[("state", prim("UnknownState"))]))]);
    let result = validate_schema(&s);
    assert!(result.is_err());
    assert!(result.unwrap_err().message().contains("unsupported type 'UnknownState'"));
}

#[test]
fn test_validation_duplicate_enum_name_fails() {
    let s = schema(vec![enum_def("State", &["a", "b"]), enum_def("State", &["c", "d"])], vec![]);
    let result = validate_schema(&s);
    assert!(result.is_err());
    assert!(result.unwrap_err().message().contains("duplicate enum name 'State'"));
}

#[test]
fn test_validation_enum_primitive_name_conflict_fails() {
    let s = schema(vec![enum_def("string", &["a", "b"])], vec![]);
    let result = validate_schema(&s);
    assert!(result.is_err());
    assert!(result.unwrap_err().message().contains("conflicts with built-in primitive type"));
}

#[test]
fn test_validation_empty_enum_values_fails() {
    let s = schema(vec![enum_def("EmptyEnum", &[])], vec![]);
    let result = validate_schema(&s);
    assert!(result.is_err());
    assert!(result.unwrap_err().message().contains("must have at least one value"));
}

#[test]
fn test_validation_duplicate_enum_values_fails() {
    let s = schema(vec![enum_def("Status", &["active", "active"])], vec![]);
    let result = validate_schema(&s);
    assert!(result.is_err());
    assert!(result.unwrap_err().message().contains("duplicate value 'active'"));
}

#[test]
fn enums_and_optional_types_validate() {
    let s = schema(
        vec![enum_def("PlayerState", &["idle", "in_combat", "fast-travel", "DEAD", "1st_rank"])],
        vec![event(
            "stateChanged",
            object(&[
                ("current", prim("PlayerState")),
                ("previous", prim("PlayerState?")),
                ("history", TypeDefinition::Array(vec![prim("PlayerState")])),
                ("n", prim("number??")),
            ]),
        )],
    );
    assert_eq!(validate_schema(&s), Ok(()));
}

#[test]
fn endpoints_check_request_then_response() {
    let mut s = schema(vec![enum_def("ItemRarity", &["common", "rare"])], vec![]);
    s.endpoints.push(EndpointDefinition {
        name: "getItem".to_string(),
        endpoint_type: EndpointType::Query,
        description: None,
        request: Some(object(&[("rarity", prim("Bad1"))])),
        response: object(&[("rarities", prim("Bad2"))]),
    });
    assert_eq!(validate_schema(&s), Err(SchemaError::UnsupportedType("Bad1".to_string())));
    s.endpoints[0].request = None;
    assert_eq!(validate_schema(&s), Err(SchemaError::UnsupportedType("Bad2".to_string())));
    s.endpoints[0].response = TypeDefinition::Array(vec![prim("ItemRarity")]);
    assert_eq!(validate_schema(&s), Ok(()));
}

#[test]
fn each_refusal_and_its_message() {
    let mut s = schema(vec![], vec![]);
    s.version = "  ".to_string();
    assert_eq!(validate_schema(&s), Err(SchemaError::EmptyHeader));
    assert_eq!(
        SchemaError::EmptyHeader.message(),
        "schema version and resource must not be empty"
    );

    let s = schema(vec![enum_def(" ", &["a"])], vec![]);
    assert_eq!(validate_schema(&s), Err(SchemaError::EmptyName(NameKind::Enum)));
    assert_eq!(
        SchemaError::EmptyName(NameKind::Event).message(),
        "event name must not be empty"
    );

    let s = schema(vec![enum_def(" void ", &["a"])], vec![]);
    assert_eq!(validate_schema(&s), Err(SchemaError::ReservedEnumName("void".to_string())));

    let s = schema(vec![enum_def("E", &["a", " "])], vec![]);
    let err = validate_schema(&s).unwrap_err();
    assert_eq!(err.message(), "enum 'E' contains an empty value");

    let s = schema(vec![enum_def("E", &["a", " a "])], vec![]);
    let err = validate_schema(&s).unwrap_err();
    assert_eq!(err.message(), "duplicate value ' a ' in enum 'E'");

    let s = schema(vec![], vec![event("e", TypeDefinition::Array(vec![]))]);
    let err = validate_schema(&s).unwrap_err();
    assert_eq!(err, SchemaError::ArrayArity);
    assert_eq!(err.message(), "array types must contain exactly one item type");

    let s = schema(vec![], vec![event("", prim("string"))]);
    assert_eq!(validate_schema(&s), Err(SchemaError::EmptyName(NameKind::Event)));

    let s = schema(vec![], vec![event("e", prim("void"))]);
    assert_eq!(
        validate_schema(&s).unwrap_err().message(),
        "unsupported type 'void'; expected string, number, boolean, or a defined enum"
    );
}

#[test]
fn object_fields_are_checked_in_key_order() {
    let s = schema(
        vec![],
        vec![event("e", object(&[("zeta", prim("Z")), ("alpha", prim("A"))]))],
    );
    assert_eq!(validate_schema(&s), Err(SchemaError::UnsupportedType("A".to_string())));
}

#[test]
fn optional_marks_primitives_only() {
    assert!(prim("string?").is_optional());
    assert!(!prim("string").is_optional());
    assert!(!TypeDefinition::Array(vec![prim("string?")]).is_optional());
}

#[test]
fn enum_names_are_trimmed_when_referenced() {
    let s = schema(vec![enum_def("  Mode ", &["a"])], vec![event("e", prim("Mode?"))]);
    assert_eq!(validate_schema(&s), Ok(()));
    let s = schema(vec![enum_def("Mode", &["a"]), enum_def(" Mode", &["b"])], vec![]);
    assert_eq!(validate_schema(&s), Err(SchemaError::DuplicateEnumName("Mode".to_string())));
}

#[test]
fn objects_from_sorted_maps_are_well_formed() {
    assert!(object(&[("b", prim("string")), ("a", prim("number"))]).is_well_formed());
    let unsorted = TypeDefinition::Object(vec![
        FieldDefinition { name: "b".to_string(), ty: prim("string") },
        FieldDefinition { name: "a".to_string(), ty: prim("string") },
    ]);
    assert!(!unsorted.is_well_formed());
    let repeated = TypeDefinition::Object(vec![
        FieldDefinition { name: "a".to_string(), ty: prim("string") },
        FieldDefinition { name: "a".to_string(), ty: prim("string") },
    ]);
    assert!(!repeated.is_well_formed());
    let nested = TypeDefinition::Array(vec![clone_type(&unsorted)]);
    assert!(!nested.is_well_formed());
    let mut s = schema(vec![], vec![event("e", object(&[("ab", prim("string")), ("a", prim("string"))]))]);
    assert!(s.is_well_formed());
    s.events.push(event("f", unsorted));
    assert!(!s.is_well_formed());
}
