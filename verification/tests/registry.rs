use flow::{FieldDefinition, ModelDefinition, ModelRegistry, ParseFlowWithModel, Value};

fn field(full: &str, alias: &str, ty: &str, id: Option<i64>) -> FieldDefinition {
    FieldDefinition {
        full_name: full.to_string(),
        alias: alias.to_string(),
        field_type: ty.to_string(),
        field_id: id,
    }
}

#[test]
fn model_new_is_empty() {
    let m = ModelDefinition::new("user".to_string());
    assert_eq!(m.name, "user");
    assert!(m.fields.is_empty());
    assert!(m.alias_map.is_empty());
}

#[test]
fn add_field_stores_field_and_alias() {
    let mut m = ModelDefinition::new("user".to_string());
    m.add_field(field("user_name", "n", "string", Some(1)));
    assert_eq!(m.fields.len(), 1);
    assert_eq!(m.fields[0].full_name, "user_name");
    assert_eq!(m.alias_map.len(), 1);
    assert_eq!(m.alias_map[0], ("n".to_string(), "user_name".to_string()));
}

#[test]
fn add_field_overwrites_same_name() {
    let mut m = ModelDefinition::new("user".to_string());
    m.add_field(field("user_name", "n", "string", Some(1)));
    m.add_field(field("user_name", "n", "text", Some(2)));
    assert_eq!(m.fields.len(), 1);
    assert_eq!(m.fields[0].field_type, "text");
    assert_eq!(m.alias_map.len(), 1);
}

#[test]
fn registry_register_and_get() {
    let mut r = ModelRegistry::new();
    let mut m = ModelDefinition::new("user".to_string());
    m.add_field(field("user_name", "n", "string", None));
    r.register_model(m);
    let got = r.get_model("user").expect("model should be present");
    assert_eq!(got.name, "user");
    assert_eq!(got.fields.len(), 1);
    assert!(r.get_model("absent").is_none());
}

#[test]
fn registry_overwrites_same_name() {
    let mut r = ModelRegistry::new();
    r.register_model(ModelDefinition::new("user".to_string()));
    let mut m2 = ModelDefinition::new("user".to_string());
    m2.add_field(field("id", "i", "int", Some(7)));
    r.register_model(m2);
    let got = r.get_model("user").expect("model should be present");
    assert_eq!(got.fields.len(), 1);
}

#[test]
fn parse_with_model_matches_plain_parse() {
    let registry = ModelRegistry::new();
    let text = "a = 1\nb:\n  c = yes\n";
    assert_eq!(
        ParseFlowWithModel(text, Some(&registry)),
        flow::ParseFlow(text)
    );
    assert_eq!(ParseFlowWithModel(text, None), flow::ParseFlow(text));
    match ParseFlowWithModel("", None) {
        Value::Object(es) => assert!(es.is_empty()),
        other => panic!("expected an object, got {:?}", other),
    }
}
