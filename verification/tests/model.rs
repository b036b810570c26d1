use edgelink_core::eid::ElementId;
use edgelink_core::flow::{
    resolve_node_type, resolve_node_wires, subflow_port_targets, FlowArgs, FlowKind, NodeTypeChoice, WireTarget,
};
use edgelink_core::prop_triple::{RedPropertyType, RedPropertyTypeCategory};
use edgelink_core::uid::{generate_str_uid, generate_uid, millis_to_i64, uid_from_parts, unix_now};
use edgelink_core::EdgelinkError;

#[test]
fn property_type_category() {
    assert_eq!(RedPropertyType::Msg.category(), RedPropertyTypeCategory::Propex);
    assert_eq!(RedPropertyType::Flow.category(), RedPropertyTypeCategory::Propex);
    assert_eq!(RedPropertyType::Global.category(), RedPropertyTypeCategory::Propex);
    assert_eq!(RedPropertyType::Str.category(), RedPropertyTypeCategory::Literal);
    assert_eq!(RedPropertyType::Env.category(), RedPropertyTypeCategory::Literal);
    assert_eq!(RedPropertyType::default(), RedPropertyType::Str);
}

#[test]
fn property_type_from_name() {
    assert_eq!(RedPropertyType::from_name("str"), Some(RedPropertyType::Str));
    assert_eq!(RedPropertyType::from_name("jsonata"), Some(RedPropertyType::Jsonata));
    assert_eq!(RedPropertyType::from_name("env"), Some(RedPropertyType::Env));
    assert_eq!(RedPropertyType::from_name("Str"), None);
    assert_eq!(RedPropertyType::from_name(""), None);
}

#[test]
fn flow_kind_from_type_name() {
    assert_eq!(FlowKind::from_type_name("tab").unwrap(), FlowKind::GlobalFlow);
    assert_eq!(FlowKind::from_type_name("subflow").unwrap(), FlowKind::Subflow);
    match FlowKind::from_type_name("group") {
        Err(EdgelinkError::BadFlowsJson(m)) => assert_eq!(m, "Unsupported flow type"),
        other => panic!("unexpected {:?}", other),
    }
}

#[test]
fn flow_args_default_capacity() {
    assert_eq!(FlowArgs::default().node_msg_queue_capacity, 16);
}

#[test]
fn uids_are_hex_strings() {
    let s = generate_str_uid();
    assert_eq!(s.len(), 16);
    assert!(s.chars().all(|c| c.is_ascii_hexdigit() && !c.is_ascii_uppercase()));
    let _ = generate_uid();
    assert!(unix_now() > 0);
}

#[test]
fn invalid_operation_error_carries_message() {
    match EdgelinkError::invalid_operation("nope") {
        EdgelinkError::InvalidOperation(m) => assert_eq!(m, "nope"),
        other => panic!("unexpected {:?}", other),
    }
}

#[test]
fn uid_parts_and_millis() {
    assert_eq!(uid_from_parts(0b1100, 0b1010), 0b0110);
    assert_eq!(uid_from_parts((1u128 << 64) + 5, 0), 5);
    assert_eq!(millis_to_i64(1_700_000_000_000), 1_700_000_000_000);
    assert_eq!(millis_to_i64(u64::MAX as u128), -1);
}

#[test]
fn node_type_resolution() {
    use_flow_items();
}

fn use_flow_items() {
    let registered = vec!["inject".to_string(), "debug".to_string(), "subflow".to_string()];
    assert_eq!(resolve_node_type("debug", &registered), NodeTypeChoice::Registered(1));
    assert_eq!(resolve_node_type("subflow:abc", &registered), NodeTypeChoice::Subflow);
    assert_eq!(resolve_node_type("subflow", &registered), NodeTypeChoice::Registered(2));
    assert_eq!(resolve_node_type("weird", &registered), NodeTypeChoice::Unknown);
    assert_eq!(resolve_node_type("subflow", &vec![]), NodeTypeChoice::Unknown);
}

#[test]
fn subflow_ports_take_the_node_wires() {
    let a = ElementId::with_u64(1);
    let b = ElementId::with_u64(2);
    let ports = vec![vec![(a, 0), (b, 1)], vec![(a, 1)]];
    assert_eq!(subflow_port_targets(&ports, a, 2).unwrap(), vec![(0, 0), (1, 1)]);
    assert_eq!(subflow_port_targets(&ports, b, 2).unwrap(), vec![(1, 0)]);
    assert!(subflow_port_targets(&ports, ElementId::with_u64(9), 0).unwrap().is_empty());
    match subflow_port_targets(&ports, a, 1) {
        Err(EdgelinkError::BadFlowsJson(m)) => assert_eq!(m, "Bad port for subflow: 1"),
        other => panic!("unexpected {:?}", other),
    }
    match subflow_port_targets(&vec![vec![(a, 12)]], a, 3) {
        Err(EdgelinkError::BadFlowsJson(m)) => assert_eq!(m, "Bad port for subflow: 12"),
        other => panic!("unexpected {:?}", other),
    }
}

#[test]
fn node_wires_are_resolved() {
    let id = |v: u64| ElementId::with_u64(v);
    let in_flow = vec![id(10), id(11)];
    let in_engine = vec![id(11), id(20)];
    let wires = vec![vec![id(11), id(20)], vec![], vec![id(10)]];
    let (targets, g) = resolve_node_wires(id(1), "n", &wires, &in_flow, &in_engine, Some(id(5)), &vec![id(4), id(5)]).unwrap();
    assert_eq!(targets, vec![vec![WireTarget::InFlow(1), WireTarget::InEngine(1)], vec![], vec![WireTarget::InFlow(0)]]);
    assert_eq!(g, Some(1));
    let (_, g) = resolve_node_wires(id(1), "n", &wires, &in_flow, &in_engine, None, &vec![]).unwrap();
    assert_eq!(g, None);
    match resolve_node_wires(id(1), "n", &vec![vec![id(10), id(99)]], &in_flow, &in_engine, Some(id(7)), &vec![]) {
        Err(EdgelinkError::InvalidData(m)) => assert_eq!(
            m,
            "Referenced node not found [this_node.id='0000000000000001' this_node.name='n', referenced_node.id='0000000000000063']"
        ),
        other => panic!("unexpected {:?}", other),
    }
    match resolve_node_wires(id(1), "n", &wires, &in_flow, &in_engine, Some(id(7)), &vec![]) {
        Err(EdgelinkError::InvalidData(m)) => assert_eq!(m, "Can not found the group id in groups: id='0000000000000007'"),
        other => panic!("unexpected {:?}", other),
    }
}
