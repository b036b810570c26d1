use edgelink_core::eval::{
    env_setting_of, env_var_names, eval_env_entries, evaluate_node_property, evaluate_property_with, substitute_env_vars, RedEnvEntry,
};
use edgelink_core::prop_triple::RedPropertyType;
use edgelink_core::variant::{Number, Variant, VariantObjectMap};
use edgelink_core::EdgelinkError;

fn num(i: i64) -> Variant {
    Variant::Number(Number::from_i64(i))
}

fn entry(name: &str, value: &str, value_type: &str) -> RedEnvEntry {
    RedEnvEntry { name: name.to_string(), value: value.to_string(), value_type: value_type.to_string() }
}

fn message() -> Variant {
    let mut inner = VariantObjectMap::new();
    inner.insert("x".to_string(), num(7));
    let mut m = VariantObjectMap::new();
    m.insert("payload".to_string(), Variant::Object(inner));
    Variant::Object(m)
}

#[test]
fn literal_properties() {
    let r = evaluate_node_property("hello", RedPropertyType::Str, None, None).unwrap().unwrap();
    assert_eq!(r, Variant::String("hello".to_string()));
    let r = evaluate_node_property("true", RedPropertyType::Bool, None, None).unwrap().unwrap();
    assert_eq!(r, Variant::Bool(true));
    let r = evaluate_node_property("True", RedPropertyType::Bool, None, None).unwrap().unwrap();
    assert_eq!(r, Variant::Bool(false));
}

#[test]
fn message_properties() {
    let msg = message();
    let r = evaluate_node_property("  payload.x \t", RedPropertyType::Msg, Some(&msg), None).unwrap().unwrap();
    assert_eq!(r, num(7));
    let r = evaluate_node_property("payload.y", RedPropertyType::Msg, Some(&msg), None).unwrap().unwrap();
    assert_eq!(r, Variant::Null);
    let r = evaluate_node_property("payload", RedPropertyType::Msg, None, None).unwrap().unwrap();
    assert_eq!(r, Variant::Null);
}

#[test]
fn json_and_bin_properties() {
    let j = Variant::Array(vec![num(1), num(2)]);
    let r = evaluate_node_property("[1,2]", RedPropertyType::Json, None, Some(&j)).unwrap().unwrap();
    assert_eq!(r, j);
    let r = evaluate_node_property("[1,2]", RedPropertyType::Bin, None, Some(&j)).unwrap().unwrap();
    assert_eq!(r, Variant::Bytes(vec![1, 2]));
    let reader_error = serde_json::from_str::<serde_json::Value>("{").unwrap_err().to_string();
    match evaluate_node_property("{", RedPropertyType::Json, None, None) {
        Err(EdgelinkError::InvalidData(m)) => assert_eq!(m, reader_error),
        other => panic!("unexpected {:?}", other),
    }
    match evaluate_node_property("{", RedPropertyType::Bin, None, None) {
        Err(EdgelinkError::InvalidData(m)) => assert_eq!(m, reader_error),
        other => panic!("unexpected {:?}", other),
    }
    match evaluate_property_with("x", RedPropertyType::Json, None, None, Some("bad")) {
        Err(EdgelinkError::InvalidData(m)) => assert_eq!(m, "bad"),
        other => panic!("unexpected {:?}", other),
    }
    assert!(evaluate_property_with("x", RedPropertyType::Str, None, None, Some("bad")).is_ok());
    match evaluate_node_property("[300]", RedPropertyType::Bin, None, Some(&Variant::Array(vec![num(300)]))) {
        Err(EdgelinkError::NotSupported(m)) => assert_eq!(m, "Invalid byte value"),
        other => panic!("unexpected {:?}", other),
    }
    assert!(evaluate_node_property("1.5", RedPropertyType::Num, None, None).unwrap().is_none());
    let r = evaluate_node_property("3", RedPropertyType::Num, None, Some(&num(3))).unwrap().unwrap();
    assert_eq!(r, num(3));
}

#[test]
fn env_entries_are_evaluated_in_two_phases() {
    let entries = vec![
        entry("env", "A", "env"),
        entry("A", "x", "str"),
        entry("B", "true", "bool"),
        entry("C", "yes", "bool"),
    ];
    let outside = vec![None, None, None, None];
    let m = eval_env_entries(&entries, &outside).unwrap();
    assert_eq!(m.get("A"), Some(&Variant::String("x".to_string())));
    assert_eq!(m.get("B"), Some(&Variant::Bool(true)));
    assert_eq!(m.get("C"), Some(&Variant::Bool(false)));
    // The `env` entry reuses the entry named by its value.
    assert_eq!(m.get("env"), Some(&Variant::String("x".to_string())));
    assert_eq!(m.len(), 4);
}

#[test]
fn env_entry_objects_are_wrapped() {
    let mut obj = VariantObjectMap::new();
    obj.insert("k".to_string(), num(1));
    let obj = Variant::Object(obj);
    let entries = vec![entry("O", "{\"k\":1}", "json"), entry("env", "O", "env")];
    let outside = vec![Some(obj.clone()), None];
    let m = eval_env_entries(&entries, &outside).unwrap();
    assert_eq!(m.get("O"), Some(&obj));
    let wrapped = m.get("env").unwrap();
    assert_eq!(wrapped.get_object_property("value"), Some(&obj));
    assert_eq!(wrapped.get_object_property("__clone__"), Some(&Variant::Bool(true)));
}

#[test]
fn env_entry_named_by_itself_looks_up_the_parent() {
    let entries = vec![entry("env", "env", "str")];
    let m = eval_env_entries(&entries, &vec![None]).unwrap();
    assert_eq!(m.get("env"), Some(&Variant::String("$parent.$env".to_string())));
}

#[test]
fn env_entry_of_unknown_type_fails() {
    match eval_env_entries(&vec![entry("A", "x", "weird")], &vec![None]) {
        Err(EdgelinkError::NotSupported(m)) => assert_eq!(m, "Unknown property type"),
        other => panic!("unexpected {:?}", other.map(|m| m.len())),
    }
}

#[test]
fn env_texts_name_a_setting_or_are_templates() {
    assert_eq!(env_setting_of("${WHO}"), Some("WHO".to_string()));
    assert_eq!(env_setting_of("WHO"), Some("WHO".to_string()));
    assert_eq!(env_setting_of("${a}b${c}"), Some("a}b${c".to_string()));
    assert_eq!(env_setting_of("Hello ${WHO}!"), None);
    assert_eq!(env_setting_of("a${}"), None);
    assert_eq!(env_var_names("Hello ${WHO}, ${WHERE}!"), vec!["WHO".to_string(), "WHERE".to_string()]);
    assert_eq!(env_var_names("a${}b${x"), Vec::<String>::new());
}

#[test]
fn env_templates_are_substituted() {
    let values = vec!["Joe".to_string()];
    assert_eq!(substitute_env_vars("Hello ${WHO}!", &values), "Hello Joe!");
    let values = vec!["1".to_string(), "2".to_string()];
    assert_eq!(substitute_env_vars("${A}+${B}=${C}", &values), "1+2=");
    assert_eq!(substitute_env_vars("a${}b", &vec![]), "a${}b");
    assert_eq!(substitute_env_vars("x${y", &vec!["z".to_string()]), "x${y");
}
