use edgelink_core::eid::ElementId;
use edgelink_core::eval::{flow_setting_of, setting_source_of, FlowSetting, SettingSource};
use edgelink_core::group::{Group, GroupParent};
use edgelink_core::registry::RegistryBuilder;
use edgelink_core::variant::{Variant, VariantObjectMap};

#[test]
fn groups_hold_their_settings_and_parent() {
    let mut env = VariantObjectMap::new();
    env.insert("A".to_string(), Variant::String("1".to_string()));
    env.insert("NR_GROUP_NAME".to_string(), Variant::String("shadowed".to_string()));
    let g = Group::new_flow_group(ElementId::with_u64(0x1f), "outer", false, ElementId::with_u64(2), env);
    assert_eq!(g.id(), ElementId::with_u64(0x1f));
    assert_eq!(g.name(), "outer");
    assert_eq!(g.type_str(), "group");
    assert_eq!(g.ordering(), 0);
    assert!(!g.is_disabled());
    assert_eq!(*g.get_parent(), GroupParent::Flow(ElementId::with_u64(2)));
    assert_eq!(g.parent_element(), Some(ElementId::with_u64(2)));
    assert_eq!(g.get_env("A"), Some(&Variant::String("1".to_string())));
    assert_eq!(g.get_env("NR_GROUP_ID"), Some(&Variant::String("000000000000001f".to_string())));
    assert_eq!(g.get_env("NR_GROUP_NAME"), Some(&Variant::String("outer".to_string())));
    assert_eq!(g.get_env("B"), None);
    assert_eq!(g.get_envs().len(), 3);

    let sub = Group::new_subgroup(ElementId::with_u64(3), "inner", true, &g, VariantObjectMap::new());
    assert!(sub.is_disabled());
    assert_eq!(*sub.get_parent(), GroupParent::Group(ElementId::with_u64(0x1f)));
    assert_eq!(sub.get_env("A"), None);
}

#[test]
fn registry_finds_node_types_by_name() {
    let reg = RegistryBuilder::new().register("inject", 1u32).register("debug", 2u32).register("inject", 3u32).build().unwrap();
    assert_eq!(reg.get("inject"), Some(&3));
    assert_eq!(reg.get("debug"), Some(&2));
    assert_eq!(reg.get("function"), None);
    assert_eq!(reg.len(), 2);
    let empty = RegistryBuilder::<u32>::new().build().unwrap();
    assert_eq!(empty.len(), 0);
}

#[test]
fn settings_are_read_where_they_belong() {
    assert_eq!(setting_source_of("NR_NODE_NAME", true, true, true), SettingSource::NodeName);
    assert_eq!(setting_source_of("NR_NODE_ID", true, false, false), SettingSource::NodeId);
    assert_eq!(setting_source_of("NR_NODE_PATH", true, false, false), SettingSource::Null);
    assert_eq!(setting_source_of("NR_NODE_NAME", false, false, true), SettingSource::Flow);
    assert_eq!(setting_source_of("X", true, true, false), SettingSource::Group);
    assert_eq!(setting_source_of("X", true, false, false), SettingSource::Flow);
    assert_eq!(setting_source_of("X", false, true, false), SettingSource::Process);
    assert_eq!(flow_setting_of(" NR_FLOW_NAME "), FlowSetting::FlowName);
    assert_eq!(flow_setting_of("NR_FLOW_ID"), FlowSetting::FlowId);
    assert_eq!(flow_setting_of("$parent.HOME"), FlowSetting::Engine("HOME".to_string()));
    assert_eq!(flow_setting_of(" HOME"), FlowSetting::Engine("HOME".to_string()));
}
